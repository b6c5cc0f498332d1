//! What the proxy does with a request, and what its administration changes.
use crate::chars;
use crate::dup::Dup;
use crate::files;
use crate::files::mode_file_text;
use crate::headers;
use crate::io;
use crate::io::LibraryView;
use crate::io::MockLibrary;
use crate::io::SegmentView;
use crate::markov_chaos::MarkovState;
use crate::matcher;
use crate::matcher::find_sequence_response;
use crate::matcher::find_smart_swap;
use crate::ordmap;
use crate::ordmap::OrdMap;
use crate::recording;
use crate::recording::collect_headers;
use crate::recording::record_exchange;
use crate::recording::traffic_entry;
use crate::recording::UpstreamReply;
use crate::responses;
use crate::responses::build_response;
use crate::responses::miss_response;
use crate::responses::serve_mock_response;
use crate::responses::transitioning_response;
use crate::responses::unreachable_response;
use crate::responses::ResponsePlan;
use crate::responses::ResponsePlanView;
use crate::routing;
use crate::routing::RoutedRequest;
use crate::routing::RoutedRequestView;
use crate::routing::UpstreamRoute;
use crate::routing::UpstreamRouteView;
use crate::telemetry;
use crate::telemetry::counter_names;
use crate::telemetry::fire_onboarding_event;
use crate::telemetry::observation_names;
use crate::telemetry::TelemetryCollector;
use crate::telemetry::TelemetryView;
use crate::text::same_text;
use crate::timestamps;
use crate::timestamps::Timestamp;
use crate::types;
use crate::types::MockEntry;
use crate::types::MockEntryView;
use crate::types::MockRequest;
use crate::types::MockRequestView;
use crate::types::MockResponseView;
use crate::types::MockSequence;
use crate::types::MockSequenceView;
use crate::types::Mode;
use crate::types::RuntimeConfig;
use crate::types::RuntimeConfigView;
use crate::uri;
use vstd::prelude::*;
use vstd::string::StrSliceExecFns;

verus! {

// ─── State ───────────────────────────────────────────────────────────────────

/// What the proxy holds besides the mock library.
pub struct ProxyState {
    /// The mode of services without one of their own.
    pub mode: Mode,
    pub routes: Vec<UpstreamRoute>,
    pub sequences: Vec<MockSequence>,
    /// How far each sequence has come, by id.
    pub counters: OrdMap<String, u32>,
    /// The requests that no mock matched.
    pub unmatched: Vec<MockRequest>,
    pub config: RuntimeConfig,
    pub telemetry: TelemetryCollector,
    /// The services with a request that was forwarded to be recorded.
    pub proxied: OrdMap<String, u64>,
    /// The services with a recorded mock.
    pub recorded: OrdMap<String, u64>,
    /// The services with a served mock.
    pub served: OrdMap<String, u64>,
    /// The Markov state of each service.
    pub markov: OrdMap<String, MarkovState>,
    /// The number of entries in the traffic logs, which tells their ids apart.
    pub logged: u64,
}

#[verifier::ext_equal]
pub struct ProxyView {
    pub mode: Mode,
    pub routes: Seq<UpstreamRouteView>,
    pub sequences: Seq<MockSequenceView>,
    pub counters: Map<Seq<char>, u32>,
    pub unmatched: Seq<MockRequestView>,
    pub config: RuntimeConfigView,
    pub telemetry: TelemetryView,
    pub proxied: Set<Seq<char>>,
    pub recorded: Set<Seq<char>>,
    pub served: Set<Seq<char>>,
    pub markov: Map<Seq<char>, MarkovState>,
    pub logged: u64,
}

impl DeepView for ProxyState {
    type V = ProxyView;

    open spec fn deep_view(&self) -> ProxyView {
        ProxyView {
            mode: self.mode,
            routes: self.routes.deep_view(),
            sequences: self.sequences.deep_view(),
            counters: self.counters@,
            unmatched: self.unmatched.deep_view(),
            config: self.config.deep_view(),
            telemetry: self.telemetry.deep_view(),
            proxied: self.proxied@.dom(),
            recorded: self.recorded@.dom(),
            served: self.served@.dom(),
            markov: self.markov@,
            logged: self.logged,
        }
    }
}

/// The state of a proxy that has just started, in this mode and with these sequences.
pub open spec fn started(mode: Mode, sequences: Seq<MockSequenceView>) -> ProxyView {
    ProxyView {
        mode,
        routes: Seq::empty(),
        sequences,
        counters: Map::empty(),
        unmatched: Seq::empty(),
        config: types::default_answer(),
        telemetry: telemetry::counted(
            TelemetryView { counters: Map::empty(), observations: Map::empty() },
            counter_names::AGENT_BOOTS_TOTAL@,
            1,
        ),
        proxied: Set::empty(),
        recorded: Set::empty(),
        served: Set::empty(),
        markov: Map::empty(),
        logged: 0,
    }
}

/// A proxy starts in the given mode with the given sequences, all of them at their
/// start, without routes, and answers a request without a match with 404. It has counted
/// its start and nothing else.
pub proof fn law_start(mode: Mode, sequences: Seq<MockSequenceView>, name: Seq<char>)
    ensures
        started(mode, sequences).mode == mode,
        started(mode, sequences).sequences == sequences,
        forall|id: Seq<char>| !#[trigger] started(mode, sequences).counters.contains_key(id),
        started(mode, sequences).routes.len() == 0,
        started(mode, sequences).unmatched.len() == 0,
        started(mode, sequences).config.unmatched_status == 404,
        started(mode, sequences).telemetry.counters.contains_key("gostly_agent_boots_total"@),
        started(mode, sequences).telemetry.counters["gostly_agent_boots_total"@] == 1,
        name != "gostly_agent_boots_total"@ ==> !started(
            mode,
            sequences,
        ).telemetry.counters.contains_key(name),
        forall|svc: Seq<char>| !#[trigger] started(mode, sequences).served.contains(svc),
        forall|svc: Seq<char>| !#[trigger] started(mode, sequences).recorded.contains(svc),
        forall|svc: Seq<char>| !#[trigger] started(mode, sequences).proxied.contains(svc),
        forall|svc: Seq<char>| !#[trigger] started(mode, sequences).markov.contains_key(svc),
{
}

// ─── Replay ──────────────────────────────────────────────────────────────────

/// How a request was answered in MOCK mode.
#[derive(Clone, Copy, Debug, PartialEq, Eq, Structural)]
pub enum MatchKind {
    /// By the entry recorded for it.
    Exact,
    /// By the next response of a sequence.
    Sequence,
    /// By the entry of a similar request, rewritten.
    SmartSwap,
    /// By nothing.
    Miss,
}

impl MatchKind {
    /// The name of the kind in metrics.
    pub fn label(&self) -> (r: &'static str)
        ensures
            r@ == (match self {
                MatchKind::Exact => "exact"@,
                MatchKind::Sequence => "sequence"@,
                MatchKind::SmartSwap => "smart_swap"@,
                MatchKind::Miss => "miss"@,
            }),
    {
        match self {
            MatchKind::Exact => "exact",
            MatchKind::Sequence => "sequence",
            MatchKind::SmartSwap => "smart_swap",
            MatchKind::Miss => "miss",
        }
    }
}

/// The entry recorded for exactly this request: same service, method, URI, tenant and
/// body.
pub open spec fn exact_hit(lib: LibraryView, req: RoutedRequestView) -> Option<MockEntryView> {
    match io::library_entry(
        lib,
        routing::service_key(req.service_id),
        req.method,
        req.uri,
        req.tenant,
    ) {
        Some(e) => if e.request.body == req.body {
            Some(e)
        } else {
            None
        },
        None => None,
    }
}

/// The sequence for this request, if it has a response.
pub open spec fn sequence_hit(seqs: Seq<MockSequenceView>, req: RoutedRequestView) -> Option<
    MockSequenceView,
> {
    match matcher::sequence_for(seqs, req.method, req.uri) {
        Some(seq) => if seq.responses.len() > 0 {
            Some(seq)
        } else {
            None
        },
        None => None,
    }
}

/// The entries of the service and the tenant of this request.
pub open spec fn swap_candidates(lib: LibraryView, req: RoutedRequestView) -> Seq<MockEntryView> {
    io::entries_in(
        ordmap::sorted_pairs::<String, SegmentView>(lib),
        routing::service_key(req.service_id),
        Some(req.tenant),
    )
}

/// The rewritten entry of a similar request.
pub open spec fn swap_hit(lib: LibraryView, req: RoutedRequestView) -> Option<MockEntryView> {
    matcher::smart_swap(swap_candidates(lib, req), req.method, req.uri, req.body)
}

/// How this request is answered: exactly, else by a sequence, else by a similar
/// request if that is enabled, else not.
pub open spec fn replay_kind(
    lib: LibraryView,
    seqs: Seq<MockSequenceView>,
    smart_swap: bool,
    req: RoutedRequestView,
) -> MatchKind {
    if exact_hit(lib, req) is Some {
        MatchKind::Exact
    } else if sequence_hit(seqs, req) is Some {
        MatchKind::Sequence
    } else if smart_swap && swap_hit(lib, req) is Some {
        MatchKind::SmartSwap
    } else {
        MatchKind::Miss
    }
}

/// The response that serves a recorded one, with a header that tells its source.
pub open spec fn served_as(resp: MockResponseView, source: Seq<char>) -> ResponsePlanView {
    responses::mock_response(
        resp.status,
        resp.headers,
        vstd::utf8::encode_utf8(resp.body),
        resp.latency_ms,
        source,
        "true"@,
    )
}

/// The next response of a sequence.
pub open spec fn next_response(seq: MockSequenceView, counters: Map<Seq<char>, u32>)
    -> MockResponseView {
    seq.responses[matcher::response_index(
        matcher::counter_of(counters, seq.id),
        seq.responses.len(),
    )]
}

/// The response to a request in MOCK mode.
pub open spec fn replay_response(
    s: ProxyView,
    lib: LibraryView,
    smart_swap: bool,
    req: RoutedRequestView,
) -> ResponsePlanView {
    match replay_kind(lib, s.sequences, smart_swap, req) {
        MatchKind::Exact => served_as(exact_hit(lib, req)->0.response, "X-Ghost-Mock"@),
        MatchKind::Sequence => served_as(
            next_response(sequence_hit(s.sequences, req)->0, s.counters),
            "X-Ghost-Sequence"@,
        ),
        MatchKind::SmartSwap => served_as(swap_hit(lib, req)->0.response, "X-Ghost-SwapMatch"@),
        MatchKind::Miss => responses::missed(s.config),
    }
}

/// The state after a request in MOCK mode: a sequence moves on, a service is seen as
/// served, and a request without a match is remembered.
pub open spec fn after_replay(
    s: ProxyView,
    lib: LibraryView,
    smart_swap: bool,
    req: RoutedRequestView,
) -> ProxyView {
    let kind = replay_kind(lib, s.sequences, smart_swap, req);
    if kind == MatchKind::Miss {
        ProxyView {
            unmatched: s.unmatched.push(
                MockRequestView { method: req.method, uri: req.uri, body: req.body },
            ),
            ..s
        }
    } else {
        ProxyView {
            counters: if kind == MatchKind::Sequence {
                let seq = sequence_hit(s.sequences, req)->0;
                s.counters.insert(
                    seq.id,
                    matcher::next_counter(
                        matcher::counter_of(s.counters, seq.id),
                        seq.responses.len(),
                        seq.loop_responses,
                    ),
                )
            } else {
                s.counters
            },
            telemetry: telemetry::after_milestone(
                s.telemetry,
                "first_mock_served"@,
                req.service_id,
                s.served,
            ),
            served: s.served.insert(telemetry::milestone_service(req.service_id)),
            ..s
        }
    }
}

/// The names of the headers that tell the source of a mock are header names.
proof fn lemma_source_names()
    ensures
        headers::valid_name("X-Ghost-Mock"@),
        headers::valid_name("X-Ghost-Sequence"@),
        headers::valid_name("X-Ghost-SwapMatch"@),
{
    reveal_strlit("X-Ghost-Mock");
    reveal_strlit("X-Ghost-Sequence");
    reveal_strlit("X-Ghost-SwapMatch");
}

fn as_option_str(s: &Option<String>) -> (r: Option<&str>)
    ensures
        r.deep_view() == s.deep_view(),
{
    match s {
        Some(t) => Some(t.as_str()),
        None => None,
    }
}

impl ProxyState {
    /// The state of a proxy that has just started, in this mode and with these
    /// sequences.
    pub fn new(mode: Mode, sequences: Vec<MockSequence>) -> (r: Self)
        ensures
            r.deep_view() == started(mode, sequences.deep_view()),
    {
        let mut telemetry = TelemetryCollector::new();
        telemetry.inc_counter(counter_names::AGENT_BOOTS_TOTAL, 1);
        let r = ProxyState {
            mode,
            routes: Vec::new(),
            sequences,
            counters: OrdMap::new(),
            unmatched: Vec::new(),
            config: RuntimeConfig::new(),
            telemetry,
            proxied: OrdMap::new(),
            recorded: OrdMap::new(),
            served: OrdMap::new(),
            markov: OrdMap::new(),
            logged: 0,
        };
        assert(r.routes.deep_view() =~= Seq::empty());
        assert(r.unmatched.deep_view() =~= Seq::empty());
        assert(r.proxied@.dom() =~= Set::empty());
        assert(r.recorded@.dom() =~= Set::empty());
        assert(r.served@.dom() =~= Set::empty());
        r
    }

    fn mark_served(&mut self, service_id: &Option<String>)
        ensures
            final(self).deep_view() == (ProxyView {
                telemetry: telemetry::after_milestone(
                    old(self).deep_view().telemetry,
                    "first_mock_served"@,
                    service_id.deep_view(),
                    old(self).deep_view().served,
                ),
                served: old(self).deep_view().served.insert(
                    telemetry::milestone_service(service_id.deep_view()),
                ),
                ..old(self).deep_view()
            }),
    {
        fire_onboarding_event(
            &mut self.telemetry,
            "first_mock_served",
            as_option_str(service_id),
            &mut self.served,
        );
    }

    /// Answers a request from the library, the sequences and, if it is enabled, the
    /// entries of similar requests.
    pub fn replay(&mut self, library: &MockLibrary, smart_swap: bool, req: &RoutedRequest) -> (r: (
        MatchKind,
        ResponsePlan,
    ))
        ensures
            r.0 == replay_kind(
                library.deep_view(),
                old(self).deep_view().sequences,
                smart_swap,
                req.deep_view(),
            ),
            r.1.deep_view() == replay_response(
                old(self).deep_view(),
                library.deep_view(),
                smart_swap,
                req.deep_view(),
            ),
            final(self).deep_view() == after_replay(
                old(self).deep_view(),
                library.deep_view(),
                smart_swap,
                req.deep_view(),
            ),
    {
        proof {
            lemma_source_names();
        }
        let svc = req.service();
        if let Some(entry) = library.find_exact(
            svc.as_str(),
            req.method.as_str(),
            req.uri.as_str(),
            req.tenant.as_str(),
        ) {
            if same_text(entry.request.body.as_str(), req.body.as_str()) {
                self.mark_served(&req.service_id);
                let plan = serve_mock_response(
                    entry.response.status,
                    &entry.response.headers,
                    entry.response.body.as_str().as_bytes_vec(),
                    entry.response.latency_ms,
                    "X-Ghost-Mock",
                    "true",
                );
                return (MatchKind::Exact, plan);
            }
        }
        if let Some(resp) = find_sequence_response(
            self.sequences.as_slice(),
            &mut self.counters,
            req.method.as_str(),
            req.uri.as_str(),
        ) {
            self.mark_served(&req.service_id);
            let plan = serve_mock_response(
                resp.status,
                &resp.headers,
                resp.body.as_str().as_bytes_vec(),
                resp.latency_ms,
                "X-Ghost-Sequence",
                "true",
            );
            return (MatchKind::Sequence, plan);
        }
        if smart_swap {
            let candidates = library.entries_for_service(svc.as_str(), Some(req.tenant.as_str()));
            if let Some(entry) = find_smart_swap(
                candidates.as_slice(),
                req.method.as_str(),
                req.uri.as_str(),
                req.body.as_str(),
            ) {
                self.mark_served(&req.service_id);
                let plan = serve_mock_response(
                    entry.response.status,
                    &entry.response.headers,
                    entry.response.body.as_str().as_bytes_vec(),
                    entry.response.latency_ms,
                    "X-Ghost-SwapMatch",
                    "true",
                );
                return (MatchKind::SmartSwap, plan);
            }
        }
        let ghost before = self.unmatched.deep_view();
        let missed = MockRequest {
            method: req.method.clone(),
            uri: req.uri.clone(),
            body: req.body.clone(),
        };
        let ghost m = missed.deep_view();
        self.unmatched.push(missed);
        assert(self.unmatched.deep_view() =~= before.push(m));
        (MatchKind::Miss, miss_response(&self.config))
    }
}

// ─── Steps ───────────────────────────────────────────────────────────────────

/// What is done with a request.
pub enum Step {
    /// It is answered.
    Reply(ResponsePlan),
    /// It is sent to this URL, and the exchange is recorded or not.
    Forward(String, bool),
}

pub enum StepView {
    Reply(ResponsePlanView),
    Forward(Seq<char>, bool),
}

impl DeepView for Step {
    type V = StepView;

    open spec fn deep_view(&self) -> StepView {
        match self {
            Step::Reply(plan) => StepView::Reply(plan.deep_view()),
            Step::Forward(target, record) => StepView::Forward(target@, *record),
        }
    }
}

/// What is done with a request, by its mode: LEARN forwards and records it, MOCK
/// answers it, PASSTHROUGH forwards it, TRANSITIONING turns it away.
pub open spec fn step_for(
    s: ProxyView,
    lib: LibraryView,
    smart_swap: bool,
    req: RoutedRequestView,
) -> StepView {
    match req.mode {
        Mode::Learn => StepView::Forward(req.upstream + req.forward_uri, true),
        Mode::Mock => StepView::Reply(replay_response(s, lib, smart_swap, req)),
        Mode::Passthrough => StepView::Forward(req.upstream + req.forward_uri, false),
        Mode::Transitioning => StepView::Reply(responses::transitioning()),
    }
}

/// The state after it was decided what is done with a request: only an answer from
/// recordings changes it.
pub open spec fn after_step(
    s: ProxyView,
    lib: LibraryView,
    smart_swap: bool,
    req: RoutedRequestView,
) -> ProxyView {
    if req.mode == Mode::Mock {
        after_replay(s, lib, smart_swap, req)
    } else {
        s
    }
}

/// The name in metrics of what is done with a request.
pub open spec fn step_label(
    s: ProxyView,
    lib: LibraryView,
    smart_swap: bool,
    req: RoutedRequestView,
) -> Seq<char> {
    match req.mode {
        Mode::Learn => "learn"@,
        Mode::Mock => match replay_kind(lib, s.sequences, smart_swap, req) {
            MatchKind::Exact => "exact"@,
            MatchKind::Sequence => "sequence"@,
            MatchKind::SmartSwap => "smart_swap"@,
            MatchKind::Miss => "miss"@,
        },
        Mode::Passthrough => "passthrough"@,
        Mode::Transitioning => "transitioning"@,
    }
}

/// What is kept of an exchange that was recorded.
pub struct Learned {
    /// The response to the client.
    pub response: ResponsePlan,
    /// The service under which the entry was recorded.
    pub service: String,
    pub entry: MockEntry,
    /// The entry for the traffic log; unrouted requests have none.
    pub traffic: Option<MockEntry>,
    /// When it was recorded.
    pub at: Timestamp,
}

/// The state after a recorded exchange. `latency_bits` are the bits of its latency.
pub open spec fn after_learn(
    s: ProxyView,
    service_id: Option<Seq<char>>,
    latency_bits: u64,
) -> ProxyView {
    ProxyView {
        telemetry: telemetry::with_observation(
            telemetry::after_milestone(
                telemetry::after_milestone(
                    s.telemetry,
                    "first_request_proxied"@,
                    service_id,
                    s.proxied,
                ),
                "first_mock_recorded"@,
                service_id,
                s.recorded,
            ),
            observation_names::MOCK_FIDELITY_MS@,
            latency_bits,
        ),
        proxied: s.proxied.insert(telemetry::milestone_service(service_id)),
        recorded: s.recorded.insert(telemetry::milestone_service(service_id)),
        logged: if service_id is None {
            s.logged
        } else if s.logged == u64::MAX {
            0
        } else {
            (s.logged + 1) as u64
        },
        ..s
    }
}

/// A recording with this outcome: the entry of the exchange is in the library and in
/// the result, with an id of its own for the traffic log if the request is routed, and
/// the client is given the reply of the upstream.
pub open spec fn learned(
    before: ProxyView,
    after: ProxyView,
    lib_before: LibraryView,
    lib_after: LibraryView,
    r: Learned,
    req: RoutedRequestView,
    request_len: nat,
    reply: UpstreamReply,
    for_all: Seq<Seq<char>>,
    max_body: nat,
    now: Timestamp,
    latency_bits: u64,
) -> bool {
    let hs = recording::headers_by_name(reply.headers.deep_view());
    let svc = routing::service_key(req.service_id);
    let e = recording::recorded_entry(
        req,
        request_len,
        reply.status,
        hs,
        reply.body@,
        reply.latency_ms,
        for_all,
        max_body,
        now,
    );
    &&& r.at == now
    &&& r.entry.deep_view() == e
    &&& r.service@ == svc
    &&& r.traffic.deep_view() == (if req.service_id is Some {
        Some(recording::logged_entry(e, now, before.logged))
    } else {
        None
    })
    &&& r.response.deep_view() == responses::built_response(reply.status, hs, reply.body@)
    &&& lib_after == io::library_with(lib_before, svc, svc, e)
    &&& after == after_learn(before, req.service_id, latency_bits)
}

impl ProxyState {
    /// Decides what is done with a request, and under which name it is counted.
    pub fn decide(&mut self, library: &MockLibrary, smart_swap: bool, req: &RoutedRequest) -> (r: (
        Step,
        &'static str,
    ))
        ensures
            r.0.deep_view() == step_for(
                old(self).deep_view(),
                library.deep_view(),
                smart_swap,
                req.deep_view(),
            ),
            r.1@ == step_label(
                old(self).deep_view(),
                library.deep_view(),
                smart_swap,
                req.deep_view(),
            ),
            final(self).deep_view() == after_step(
                old(self).deep_view(),
                library.deep_view(),
                smart_swap,
                req.deep_view(),
            ),
    {
        match req.mode {
            Mode::Learn => (Step::Forward(req.target(), true), "learn"),
            Mode::Mock => {
                let (kind, plan) = self.replay(library, smart_swap, req);
                (Step::Reply(plan), kind.label())
            },
            Mode::Passthrough => (Step::Forward(req.target(), false), "passthrough"),
            Mode::Transitioning => (Step::Reply(transitioning_response()), "transitioning"),
        }
    }

    /// Records an exchange with the upstream at `now`.
    pub fn learn_at(
        &mut self,
        library: &mut MockLibrary,
        req: &RoutedRequest,
        request_len: usize,
        reply: UpstreamReply,
        for_all: &Vec<String>,
        max_body: usize,
        now: Timestamp,
        latency_bits: u64,
    ) -> (r: Learned)
        requires
            timestamps::in_calendar(now),
        ensures
            learned(
                old(self).deep_view(),
                final(self).deep_view(),
                old(library).deep_view(),
                final(library).deep_view(),
                r,
                req.deep_view(),
                request_len as nat,
                reply,
                for_all.deep_view(),
                max_body as nat,
                now,
                latency_bits,
            ),
    {
        let hs = collect_headers(&reply.headers);
        let entry = record_exchange(req, request_len, &reply, &hs, for_all, max_body, now);
        fire_onboarding_event(
            &mut self.telemetry,
            "first_request_proxied",
            as_option_str(&req.service_id),
            &mut self.proxied,
        );
        fire_onboarding_event(
            &mut self.telemetry,
            "first_mock_recorded",
            as_option_str(&req.service_id),
            &mut self.recorded,
        );
        self.telemetry.record_observation(observation_names::MOCK_FIDELITY_MS, latency_bits);
        let traffic = if req.service_id.is_some() {
            let logged = traffic_entry(&entry, now, self.logged);
            self.logged =
            if self.logged == u64::MAX {
                0
            } else {
                self.logged + 1
            };
            Some(logged)
        } else {
            None
        };
        let service = req.service();
        library.record(service.as_str(), entry.dup());
        let response = build_response(reply.status, &hs, reply.body);
        Learned { response, service, entry, traffic, at: now }
    }

    /// Records an exchange with the upstream at the time on the system clock.
    pub fn learn(
        &mut self,
        library: &mut MockLibrary,
        req: &RoutedRequest,
        request_len: usize,
        reply: UpstreamReply,
        for_all: &Vec<String>,
        max_body: usize,
        latency_bits: u64,
    ) -> (r: Learned)
        ensures
            timestamps::in_calendar(r.at),
            learned(
                old(self).deep_view(),
                final(self).deep_view(),
                old(library).deep_view(),
                final(library).deep_view(),
                r,
                req.deep_view(),
                request_len as nat,
                reply,
                for_all.deep_view(),
                max_body as nat,
                r.at,
                latency_bits,
            ),
    {
        let now = Timestamp::now();
        self.learn_at(library, req, request_len, reply, for_all, max_body, now, latency_bits)
    }
}

/// The response to a client for the reply of an upstream that is not recorded.
pub fn pass_through(reply: UpstreamReply) -> (r: ResponsePlan)
    ensures
        r.deep_view() == responses::built_response(
            reply.status,
            recording::headers_by_name(reply.headers.deep_view()),
            reply.body@,
        ),
{
    let hs = collect_headers(&reply.headers);
    build_response(reply.status, &hs, reply.body)
}

/// How a forwarded request ended.
pub enum Conclusion {
    /// The upstream gave no reply; the client is given this response.
    Failed(ResponsePlan),
    /// The reply is handed on in this response.
    Passed(ResponsePlan),
    /// The exchange was recorded.
    Recorded(Learned),
}

impl ProxyState {
    /// Ends a forwarded request. Without a reply of the upstream the client is told so
    /// and nothing changes; a reply is handed on, and recorded at the time on the system
    /// clock if it is to be.
    pub fn conclude(
        &mut self,
        library: &mut MockLibrary,
        req: &RoutedRequest,
        record: bool,
        request_len: usize,
        reply: Option<UpstreamReply>,
        for_all: &Vec<String>,
        max_body: usize,
        latency_bits: u64,
    ) -> (r: Conclusion)
        ensures
            concluded(
                old(self).deep_view(),
                final(self).deep_view(),
                old(library).deep_view(),
                final(library).deep_view(),
                r,
                req.deep_view(),
                record,
                request_len as nat,
                reply,
                for_all.deep_view(),
                max_body as nat,
                latency_bits,
            ),
    {
        match reply {
            None => Conclusion::Failed(unreachable_response()),
            Some(reply) => {
                if record {
                    Conclusion::Recorded(
                        self.learn(
                            library,
                            req,
                            request_len,
                            reply,
                            for_all,
                            max_body,
                            latency_bits,
                        ),
                    )
                } else {
                    Conclusion::Passed(pass_through(reply))
                }
            },
        }
    }
}

/// A forwarded request with this end: without a reply the client is told so, a reply is
/// handed on, and it is recorded if it is to be; otherwise nothing changes.
pub open spec fn concluded(
    before: ProxyView,
    after: ProxyView,
    lib_before: LibraryView,
    lib_after: LibraryView,
    r: Conclusion,
    req: RoutedRequestView,
    record: bool,
    request_len: nat,
    reply: Option<UpstreamReply>,
    for_all: Seq<Seq<char>>,
    max_body: nat,
    latency_bits: u64,
) -> bool {
    &&& match reply {
        None => {
            &&& r is Failed
            &&& r->Failed_0.deep_view() == responses::unreachable()
        },
        Some(reply) => if record {
            &&& r is Recorded
            &&& timestamps::in_calendar(r->Recorded_0.at)
            &&& learned(
                before,
                after,
                lib_before,
                lib_after,
                r->Recorded_0,
                req,
                request_len,
                reply,
                for_all,
                max_body,
                r->Recorded_0.at,
                latency_bits,
            )
        } else {
            &&& r is Passed
            &&& r->Passed_0.deep_view() == responses::built_response(
                reply.status,
                recording::headers_by_name(reply.headers.deep_view()),
                reply.body@,
            )
        },
    }
    &&& reply is None || !record ==> after == before && lib_after == lib_before
}

/// Without a reply of the upstream the client gets 502 and nothing is recorded. A reply
/// that is not to be recorded is handed on with its status, its body and its headers, and
/// nothing is recorded. A reply that is to be recorded is. Left out are replies with a
/// status or a header name that is none.
pub proof fn law_conclusion(
    before: ProxyView,
    after: ProxyView,
    lib_before: LibraryView,
    lib_after: LibraryView,
    r: Conclusion,
    req: RoutedRequestView,
    record: bool,
    request_len: nat,
    reply: Option<UpstreamReply>,
    for_all: Seq<Seq<char>>,
    max_body: nat,
    latency_bits: u64,
)
    requires
        concluded(
            before,
            after,
            lib_before,
            lib_after,
            r,
            req,
            record,
            request_len,
            reply,
            for_all,
            max_body,
            latency_bits,
        ),
        reply is Some ==> 100 <= reply->0.status <= 999,
        reply is Some ==> recording::headers_by_name(
            reply->0.headers.deep_view(),
        ).dom().finite(),
        reply is Some ==> forall|k: Seq<char>| #[trigger]
            recording::headers_by_name(reply->0.headers.deep_view()).contains_key(k)
                ==> headers::valid_name(k),
    ensures
        reply is None ==> {
            &&& r is Failed
            &&& r->Failed_0.deep_view().status == 502
            &&& r->Failed_0.deep_view().body.len() == 0
            &&& r->Failed_0.deep_view().headers.len() == 0
            &&& after == before
            &&& lib_after == lib_before
        },
        reply is Some && !record ==> {
            let hs = recording::headers_by_name(reply->0.headers.deep_view());
            let p = r->Passed_0.deep_view();
            &&& r is Passed
            &&& p.status == reply->0.status
            &&& p.body == reply->0.body@
            &&& p.delay_ms == 0
            &&& forall|k: Seq<char>| #[trigger]
                hs.contains_key(k) && responses::handed_on((k, hs[k])) ==> p.headers.contains(
                    (chars::ascii_lower(k), hs[k]),
                )
            &&& forall|i: int|
                0 <= i < p.headers.len() ==> responses::handed_from(hs, #[trigger] p.headers[i])
            &&& after == before
            &&& lib_after == lib_before
        },
        reply is Some && record ==> {
            &&& r is Recorded
            &&& r->Recorded_0.response.deep_view().status == reply->0.status
            &&& r->Recorded_0.response.deep_view().body == reply->0.body@
            &&& r->Recorded_0.entry.deep_view().response.status == reply->0.status
            &&& r->Recorded_0.entry.deep_view().request.method == req.method
            &&& r->Recorded_0.entry.deep_view().request.uri == req.uri
            &&& io::library_entry(
                lib_after,
                r->Recorded_0.service@,
                req.method,
                req.uri,
                req.tenant,
            ) == Some(r->Recorded_0.entry.deep_view())
        },
{
    if reply is Some {
        let rep = reply->0;
        let hs = recording::headers_by_name(rep.headers.deep_view());
        responses::law_reply_is_handed_on(rep.status, hs, rep.body@);
        if record {
            let e = r->Recorded_0.entry.deep_view();
            let svc = routing::service_key(req.service_id);
            recording::law_exchange_is_recorded_as_it_was(
                req,
                request_len,
                rep.status,
                hs,
                rep.body@,
                rep.latency_ms,
                for_all,
                max_body,
                r->Recorded_0.at,
            );
            assert(io::entry_key(e) == (req.method, req.uri, req.tenant));
            io::law_recorded_is_found(lib_before, svc, e);
        }
    }
}

/// The first recorded exchange of a service counts its two milestones, and every one adds
/// its latency to the observations.
pub proof fn law_learning_is_counted(s: ProxyView, svc: Seq<char>, latency_bits: u64)
    requires
        !s.proxied.contains(svc),
        !s.recorded.contains(svc),
    ensures
        ({
            let t = after_learn(s, Some(svc), latency_bits).telemetry;
            let p = "gostly_first_request_proxied_total"@;
            let m = "gostly_first_mock_recorded_total"@;
            &&& telemetry::counter_value(s.telemetry, p) < u64::MAX ==> telemetry::counter_value(
                t,
                p,
            ) == telemetry::counter_value(s.telemetry, p) + 1
            &&& telemetry::counter_value(s.telemetry, m) < u64::MAX ==> telemetry::counter_value(
                t,
                m,
            ) == telemetry::counter_value(s.telemetry, m) + 1
            &&& telemetry::observed(s.telemetry, "gostly_mock_fidelity_ms"@).len() < 1024
                ==> telemetry::observed(t, "gostly_mock_fidelity_ms"@) == telemetry::observed(
                s.telemetry,
                "gostly_mock_fidelity_ms"@,
            ).push(latency_bits)
            &&& after_learn(s, Some(svc), latency_bits).proxied.contains(svc)
            &&& after_learn(s, Some(svc), latency_bits).recorded.contains(svc)
        }),
{
    telemetry::law_first_milestone_counts(s.telemetry, Some(svc), s.proxied);
    let one = telemetry::after_milestone(
        s.telemetry,
        "first_request_proxied"@,
        Some(svc),
        s.proxied,
    );
    telemetry::law_first_milestone_counts(one, Some(svc), s.recorded);
    reveal_strlit("gostly_first_request_proxied_total");
    reveal_strlit("gostly_first_mock_recorded_total");
    assert("gostly_first_request_proxied_total"@.len() == 34);
    assert("gostly_first_mock_recorded_total"@.len() == 32);
}

/// The first request of a service that is answered from recordings counts the milestone
/// of a served mock, a later one does not.
pub proof fn law_serving_is_counted(
    s: ProxyView,
    lib: LibraryView,
    smart_swap: bool,
    req: RoutedRequestView,
    svc: Seq<char>,
)
    requires
        req.mode == Mode::Mock,
        req.service_id == Some(svc),
        step_label(s, lib, smart_swap, req) != "miss"@,
    ensures
        after_step(s, lib, smart_swap, req).served.contains(svc),
        !s.served.contains(svc) ==> after_step(s, lib, smart_swap, req).telemetry
            == telemetry::counted(s.telemetry, "gostly_first_mock_served_total"@, 1),
        s.served.contains(svc) ==> after_step(s, lib, smart_swap, req).telemetry == s.telemetry,
{
    if !s.served.contains(svc) {
        telemetry::law_first_milestone_counts(s.telemetry, Some(svc), s.served);
    }
}

/// Two exchanges of a service count its milestones once.
pub proof fn law_milestones_count_once(
    s: ProxyView,
    service_id: Option<Seq<char>>,
    first: u64,
    second: u64,
    name: Seq<char>,
)
    ensures
        telemetry::counter_value(
            after_learn(after_learn(s, service_id, first), service_id, second).telemetry,
            name,
        ) == telemetry::counter_value(after_learn(s, service_id, first).telemetry, name),
{
}

/// In MOCK mode, and while recordings are processed, the upstream is never reached.
pub proof fn law_mock_never_forwards(
    s: ProxyView,
    lib: LibraryView,
    smart_swap: bool,
    req: RoutedRequestView,
)
    requires
        req.mode == Mode::Mock || req.mode == Mode::Transitioning,
    ensures
        step_for(s, lib, smart_swap, req) is Reply,
{
}

/// In LEARN and PASSTHROUGH mode a request goes to the upstream of its route with its
/// whole URI in canonical form, the tenant included.
pub proof fn law_whole_uri_is_forwarded(
    s: ProxyView,
    lib: LibraryView,
    smart_swap: bool,
    method: Seq<char>,
    path_query: Seq<char>,
    host: Seq<char>,
    tenant_header: Option<Seq<char>>,
    body: Seq<char>,
    global_mode: Mode,
    default_url: Seq<char>,
)
    ensures
        ({
            let req = routing::routed(
                method,
                path_query,
                host,
                tenant_header,
                body,
                global_mode,
                s.routes,
                default_url,
            );
            let whole = uri::normalized(path_query);
            let upstream = routing::destination(s.routes, host, whole, default_url).upstream;
            req.mode == Mode::Learn || req.mode == Mode::Passthrough ==> step_for(
                s,
                lib,
                smart_swap,
                req,
            ) == StepView::Forward(upstream + whole, req.mode == Mode::Learn)
        }),
{
}

/// Exactly in LEARN mode an exchange is recorded.
pub proof fn law_only_learn_records(
    s: ProxyView,
    lib: LibraryView,
    smart_swap: bool,
    req: RoutedRequestView,
)
    ensures
        (step_for(s, lib, smart_swap, req) is Forward && step_for(
            s,
            lib,
            smart_swap,
            req,
        )->Forward_1) == (req.mode == Mode::Learn),
{
}

/// What was recorded is replayed: after an exchange was recorded whose request body
/// was stored whole, the same request of the same tenant to the same service is
/// answered with the recorded response, whatever else the library holds.
pub proof fn law_recorded_is_replayed(
    s: ProxyView,
    lib: LibraryView,
    smart_swap: bool,
    req: RoutedRequestView,
    request_len: nat,
    status: u16,
    hs: Map<Seq<char>, Seq<char>>,
    body: Seq<u8>,
    latency_ms: u64,
    for_all: Seq<Seq<char>>,
    max_body: nat,
    now: Timestamp,
    again: RoutedRequestView,
)
    requires
        request_len <= max_body,
        again.method == req.method,
        again.uri == req.uri,
        again.body == req.body,
        again.tenant == req.tenant,
        again.service_id == req.service_id,
    ensures
        ({
            let svc = routing::service_key(req.service_id);
            let e = recording::recorded_entry(
                req,
                request_len,
                status,
                hs,
                body,
                latency_ms,
                for_all,
                max_body,
                now,
            );
            let after = io::library_with(lib, svc, svc, e);
            &&& replay_kind(after, s.sequences, smart_swap, again) == MatchKind::Exact
            &&& replay_response(s, after, smart_swap, again) == served_as(
                e.response,
                "X-Ghost-Mock"@,
            )
        }),
{
    let svc = routing::service_key(req.service_id);
    let e = recording::recorded_entry(
        req,
        request_len,
        status,
        hs,
        body,
        latency_ms,
        for_all,
        max_body,
        now,
    );
    assert(io::entry_key(e) == (req.method, req.uri, req.tenant));
    io::law_recorded_is_found(lib, svc, e);
}

/// The reply of an upstream is given back in MOCK mode: with its status, its body, and
/// every header that is handed on and not redacted. The body is UTF-8 and, like that
/// of the request, short enough to be stored whole. Left out are replies with a status
/// or a header name that is none.
pub proof fn law_reply_is_given_back(
    s: ProxyView,
    lib: LibraryView,
    smart_swap: bool,
    req: RoutedRequestView,
    request_len: nat,
    status: u16,
    hs: Map<Seq<char>, Seq<char>>,
    body: Seq<u8>,
    latency_ms: u64,
    for_all: Seq<Seq<char>>,
    max_body: nat,
    now: Timestamp,
)
    requires
        hs.dom().finite(),
        headers::valid_status(status),
        forall|k: Seq<char>| #[trigger] hs.contains_key(k) ==> headers::valid_name(k),
        vstd::utf8::valid_utf8(body),
        body.len() <= max_body,
        request_len <= max_body,
    ensures
        ({
            let svc = routing::service_key(req.service_id);
            let e = recording::recorded_entry(
                req,
                request_len,
                status,
                hs,
                body,
                latency_ms,
                for_all,
                max_body,
                now,
            );
            let r = replay_response(s, io::library_with(lib, svc, svc, e), smart_swap, req);
            &&& r.status == status
            &&& r.body == body
            &&& latency_ms <= 10_000 ==> r.delay_ms == latency_ms
            &&& latency_ms > 10_000 ==> r.delay_ms == 10_000
            &&& forall|k: Seq<char>| #[trigger]
                hs.contains_key(k) && responses::handed_on((k, hs[k])) && !recording::is_redacted(
                    k,
                    for_all,
                    req.redact_headers,
                ) && chars::ascii_lower(k) != chars::ascii_lower("X-Ghost-Mock"@)
                    ==> r.headers.contains((chars::ascii_lower(k), hs[k]))
        }),
{
    law_recorded_is_replayed(
        s,
        lib,
        smart_swap,
        req,
        request_len,
        status,
        hs,
        body,
        latency_ms,
        for_all,
        max_body,
        now,
        req,
    );
    let kept = recording::recorded_headers(hs, for_all, req.redact_headers);
    recording::law_redaction_keeps_names(hs, for_all, req.redact_headers);
    vstd::utf8::decode_utf8_encode_utf8(body);
    assert forall|k: Seq<char>| #[trigger] kept.contains_key(k) implies headers::valid_name(k) by {
        assert(hs.contains_key(k));
    }
    responses::law_mock_is_served_as_recorded(
        status,
        kept,
        body,
        latency_ms,
        "X-Ghost-Mock"@,
        "true"@,
    );
    assert forall|k: Seq<char>| #[trigger]
        hs.contains_key(k) && responses::handed_on((k, hs[k])) && !recording::is_redacted(
            k,
            for_all,
            req.redact_headers,
        ) && chars::ascii_lower(k) != chars::ascii_lower(
            "X-Ghost-Mock"@,
        ) implies responses::mock_response(
        status,
        kept,
        body,
        latency_ms,
        "X-Ghost-Mock"@,
        "true"@,
    ).headers.contains((chars::ascii_lower(k), hs[k])) by {
        assert(kept.contains_key(k));
        assert(kept[k] == hs[k]);
    }
}

/// A request is never answered with an entry of another tenant: neither with the
/// entry recorded for it nor with that of a similar request.
pub proof fn law_replay_stays_in_tenant(lib: LibraryView, req: RoutedRequestView)
    requires
        io::keyed(lib),
        io::finite_services(lib),
    ensures
        exact_hit(lib, req) is Some ==> exact_hit(lib, req)->0.tenant == req.tenant,
        forall|i: int|
            0 <= i < swap_candidates(lib, req).len() ==> (#[trigger] swap_candidates(
                lib,
                req,
            )[i]).tenant == req.tenant,
{
    let svc = routing::service_key(req.service_id);
    io::law_tenants_are_isolated(lib, svc, req.method, req.uri, req.tenant);
    assert forall|i: int| 0 <= i < swap_candidates(lib, req).len() implies (
    #[trigger] swap_candidates(lib, req)[i]).tenant == req.tenant by {
        io::law_service_list_of_tenant(lib, svc, req.tenant, i);
    }
}

/// The response `r` is the recorded one: its status, its body as bytes, its wait cut to
/// ten seconds, every header of it that is handed on, no others but the one that tells
/// the source, which is `source` in lower case and says `true`.
pub open spec fn is_served(r: ResponsePlanView, resp: MockResponseView, source: Seq<char>) -> bool {
    &&& r.status == resp.status
    &&& r.body == vstd::utf8::encode_utf8(resp.body)
    &&& resp.latency_ms <= 10_000 ==> r.delay_ms == resp.latency_ms
    &&& resp.latency_ms > 10_000 ==> r.delay_ms == 10_000
    &&& r.headers.contains((source, "true"@))
    &&& forall|k: Seq<char>| #[trigger]
        resp.headers.contains_key(k) && responses::handed_on((k, resp.headers[k]))
            && chars::ascii_lower(k) != source ==> r.headers.contains(
            (chars::ascii_lower(k), resp.headers[k]),
        )
    &&& forall|i: int|
        0 <= i < r.headers.len() ==> #[trigger] r.headers[i] == (source, "true"@)
            || responses::handed_from(resp.headers, r.headers[i])
}

/// A recorded response that can be sent: its status and its header names are such.
pub open spec fn sendable(resp: MockResponseView) -> bool {
    &&& 100 <= resp.status <= 999
    &&& resp.headers.dom().finite()
    &&& forall|k: Seq<char>| #[trigger] resp.headers.contains_key(k) ==> headers::valid_name(k)
}

proof fn lemma_served_as(resp: MockResponseView, source: Seq<char>)
    requires
        sendable(resp),
    ensures
        is_served(served_as(resp, source), resp, chars::ascii_lower(source)),
{
    let body = vstd::utf8::encode_utf8(resp.body);
    let name = chars::ascii_lower(source);
    let r = served_as(resp, source);
    let built = responses::built_response(resp.status, resp.headers, body);
    responses::law_mock_is_served_as_recorded(
        resp.status,
        resp.headers,
        body,
        resp.latency_ms,
        source,
        "true"@,
    );
    responses::law_reply_is_handed_on(resp.status, resp.headers, body);
    reveal_strlit("true");
    assert(headers::valid_value("true"@));
    let others = responses::without_header(built.headers, name);
    assert(r.headers[r.headers.len() - 1] == (name, "true"@));
    assert forall|i: int| 0 <= i < r.headers.len() implies #[trigger] r.headers[i] == (
        name,
        "true"@,
    ) || responses::handed_from(resp.headers, r.headers[i]) by {
        if i < others.len() {
            assert(r.headers[i] == others[i]);
            responses::lemma_without_header_has(built.headers, name, i);
            let j = built.headers.index_of(others[i]);
            assert(responses::handed_from(resp.headers, built.headers[j]));
        }
    }
}

proof fn lemma_source_names_lower()
    ensures
        chars::ascii_lower("X-Ghost-Mock"@) == "x-ghost-mock"@,
        chars::ascii_lower("X-Ghost-Sequence"@) == "x-ghost-sequence"@,
        chars::ascii_lower("X-Ghost-SwapMatch"@) == "x-ghost-swapmatch"@,
{
    reveal_strlit("X-Ghost-Mock");
    reveal_strlit("X-Ghost-Sequence");
    reveal_strlit("X-Ghost-SwapMatch");
    reveal_strlit("x-ghost-mock");
    reveal_strlit("x-ghost-sequence");
    reveal_strlit("x-ghost-swapmatch");
    assert(chars::ascii_lower("X-Ghost-Mock"@) =~= "x-ghost-mock"@);
    assert(chars::ascii_lower("X-Ghost-Sequence"@) =~= "x-ghost-sequence"@);
    assert(chars::ascii_lower("X-Ghost-SwapMatch"@) =~= "x-ghost-swapmatch"@);
}

/// A request that was recorded is answered with its recorded response, before any
/// sequence and any similar request. No sequence moves on.
pub proof fn law_exact_answers_first(
    s: ProxyView,
    lib: LibraryView,
    smart_swap: bool,
    req: RoutedRequestView,
    e: MockEntryView,
)
    requires
        req.mode == Mode::Mock,
        io::library_entry(
            lib,
            routing::service_key(req.service_id),
            req.method,
            req.uri,
            req.tenant,
        ) == Some(e),
        e.request.body == req.body,
        sendable(e.response),
    ensures
        step_for(s, lib, smart_swap, req) is Reply,
        is_served(step_for(s, lib, smart_swap, req)->Reply_0, e.response, "x-ghost-mock"@),
        step_label(s, lib, smart_swap, req) == "exact"@,
        after_step(s, lib, smart_swap, req).counters == s.counters,
        after_step(s, lib, smart_swap, req).unmatched == s.unmatched,
{
    lemma_served_as(e.response, "X-Ghost-Mock"@);
    lemma_source_names_lower();
}

/// Nothing was recorded for this very request.
pub open spec fn not_recorded(lib: LibraryView, req: RoutedRequestView) -> bool {
    match io::library_entry(
        lib,
        routing::service_key(req.service_id),
        req.method,
        req.uri,
        req.tenant,
    ) {
        Some(e) => e.request.body != req.body,
        None => true,
    }
}

/// The sequence at `i` is the first one for this request, and it has responses.
pub open spec fn first_sequence_at(seqs: Seq<MockSequenceView>, req: RoutedRequestView, i: int)
    -> bool {
    &&& 0 <= i < seqs.len()
    &&& seqs[i].method == req.method && uri::same_shape(seqs[i].uri, req.uri)
    &&& seqs[i].responses.len() > 0
    &&& forall|j: int|
        0 <= j < i ==> !((#[trigger] seqs[j]).method == req.method && uri::same_shape(
            seqs[j].uri,
            req.uri,
        ))
}

proof fn lemma_first_sequence(seqs: Seq<MockSequenceView>, req: RoutedRequestView, i: int)
    requires
        first_sequence_at(seqs, req, i),
    ensures
        matcher::sequence_for(seqs, req.method, req.uri) == Some(seqs[i]),
    decreases seqs.len(),
{
    if i > 0 {
        assert(!(seqs[0].method == req.method && uri::same_shape(seqs[0].uri, req.uri)));
        let rest = seqs.drop_first();
        assert forall|j: int| 0 <= j < i - 1 implies !((#[trigger] rest[j]).method == req.method
            && uri::same_shape(rest[j].uri, req.uri)) by {
            assert(rest[j] == seqs[j + 1]);
        }
        lemma_first_sequence(rest, req, i - 1);
    }
}

/// A request that was not recorded is answered by the first sequence for it, with the
/// response at the counter of the sequence: the last one once the counter is past the
/// end. The counter of this sequence moves on by one, of a looping one back to the start
/// after the last response; that of no other sequence moves.
pub proof fn law_sequence_answers(
    s: ProxyView,
    lib: LibraryView,
    smart_swap: bool,
    req: RoutedRequestView,
    i: int,
    count: u32,
    k: int,
)
    requires
        req.mode == Mode::Mock,
        not_recorded(lib, req),
        first_sequence_at(s.sequences, req, i),
        s.counters.contains_key(s.sequences[i].id) ==> count == s.counters[s.sequences[i].id],
        !s.counters.contains_key(s.sequences[i].id) ==> count == 0,
        count < s.sequences[i].responses.len() ==> k == count,
        count >= s.sequences[i].responses.len() ==> k == s.sequences[i].responses.len() - 1,
        sendable(s.sequences[i].responses[k]),
    ensures
        step_for(s, lib, smart_swap, req) is Reply,
        is_served(
            step_for(s, lib, smart_swap, req)->Reply_0,
            s.sequences[i].responses[k],
            "x-ghost-sequence"@,
        ),
        step_label(s, lib, smart_swap, req) == "sequence"@,
        ({
            let after = after_step(s, lib, smart_swap, req);
            let seq = s.sequences[i];
            &&& after.counters.contains_key(seq.id)
            &&& !seq.loop_responses && count < u32::MAX ==> after.counters[seq.id] == count + 1
            &&& seq.loop_responses && count + 1 < seq.responses.len() && count < u32::MAX
                ==> after.counters[seq.id] == count + 1
            &&& seq.loop_responses && count + 1 == seq.responses.len() ==> after.counters[seq.id]
                == 0
            &&& forall|other: Seq<char>|
                other != seq.id ==> (#[trigger] after.counters.contains_key(other)
                    == s.counters.contains_key(other)) && (s.counters.contains_key(other)
                    ==> after.counters[other] == s.counters[other])
            &&& after.sequences == s.sequences
            &&& after.unmatched == s.unmatched
            &&& after.mode == s.mode
            &&& after.routes == s.routes
            &&& after.config == s.config
        }),
{
    lemma_first_sequence(s.sequences, req, i);
    lemma_served_as(s.sequences[i].responses[k], "X-Ghost-Sequence"@);
    lemma_source_names_lower();
    let len = s.sequences[i].responses.len();
    let next: nat = (count as nat) + 1;
    if next < len {
        vstd::arithmetic::div_mod::lemma_small_mod(next, len);
    } else if next == len {
        vstd::arithmetic::div_mod::lemma_mod_self_0(len as int);
    }
}

/// The state after `n` requests like this one.
pub open spec fn after_steps(
    s: ProxyView,
    lib: LibraryView,
    smart_swap: bool,
    req: RoutedRequestView,
    n: nat,
) -> ProxyView
    decreases n,
{
    if n == 0 {
        s
    } else {
        after_step(after_steps(s, lib, smart_swap, req, (n - 1) as nat), lib, smart_swap, req)
    }
}

/// A sequence is served in order: the request after `n` others like it is answered with
/// the response `n` of a sequence that was new, with the last one past the end, or, if
/// the sequence loops, with the response `n` modulo its length.
pub proof fn law_sequence_is_served_in_order(
    s: ProxyView,
    lib: LibraryView,
    smart_swap: bool,
    req: RoutedRequestView,
    i: int,
    n: nat,
    k: int,
)
    requires
        req.mode == Mode::Mock,
        not_recorded(lib, req),
        first_sequence_at(s.sequences, req, i),
        !s.counters.contains_key(s.sequences[i].id),
        n < 0x1_0000_0000,
        s.sequences[i].loop_responses ==> k == n as int % s.sequences[i].responses.len() as int,
        !s.sequences[i].loop_responses && n < s.sequences[i].responses.len() ==> k == n,
        !s.sequences[i].loop_responses && n >= s.sequences[i].responses.len() ==> k
            == s.sequences[i].responses.len() - 1,
        sendable(s.sequences[i].responses[k]),
    ensures
        ({
            let before = after_steps(s, lib, smart_swap, req, n);
            &&& step_for(before, lib, smart_swap, req) is Reply
            &&& is_served(
                step_for(before, lib, smart_swap, req)->Reply_0,
                s.sequences[i].responses[k],
                "x-ghost-sequence"@,
            )
        }),
{
    let seq = s.sequences[i];
    let len = seq.responses.len();
    lemma_counter_after_steps(s, lib, smart_swap, req, i, n);
    matcher::law_sequence_order(n, len, seq.loop_responses);
    let before = after_steps(s, lib, smart_swap, req, n);
    lemma_first_sequence(before.sequences, req, i);
    lemma_served_as(seq.responses[k], "X-Ghost-Sequence"@);
    lemma_source_names_lower();
}

proof fn lemma_counter_after_steps(
    s: ProxyView,
    lib: LibraryView,
    smart_swap: bool,
    req: RoutedRequestView,
    i: int,
    n: nat,
)
    requires
        req.mode == Mode::Mock,
        not_recorded(lib, req),
        first_sequence_at(s.sequences, req, i),
        !s.counters.contains_key(s.sequences[i].id),
    ensures
        after_steps(s, lib, smart_swap, req, n).sequences == s.sequences,
        matcher::counter_of(
            after_steps(s, lib, smart_swap, req, n).counters,
            s.sequences[i].id,
        ) == matcher::counter_after(
            n,
            s.sequences[i].responses.len(),
            s.sequences[i].loop_responses,
        ),
    decreases n,
{
    if n > 0 {
        lemma_counter_after_steps(s, lib, smart_swap, req, i, (n - 1) as nat);
        let before = after_steps(s, lib, smart_swap, req, (n - 1) as nat);
        lemma_first_sequence(before.sequences, req, i);
    }
}

/// No sequence is for this request, or the first one that is has no responses.
pub open spec fn no_sequence_for(seqs: Seq<MockSequenceView>, req: RoutedRequestView) -> bool {
    exists|n: int| #[trigger]
        none_before(seqs, req, n) && (n == seqs.len() || (n < seqs.len() && seqs[n].method
            == req.method && uri::same_shape(seqs[n].uri, req.uri) && seqs[n].responses.len()
            == 0))
}

/// None of the first `n` sequences is for this request.
pub open spec fn none_before(seqs: Seq<MockSequenceView>, req: RoutedRequestView, n: int) -> bool {
    0 <= n <= seqs.len() && forall|j: int|
        0 <= j < n ==> !((#[trigger] seqs[j]).method == req.method && uri::same_shape(
            seqs[j].uri,
            req.uri,
        ))
}

proof fn lemma_no_sequence(seqs: Seq<MockSequenceView>, req: RoutedRequestView)
    requires
        no_sequence_for(seqs, req),
    ensures
        sequence_hit(seqs, req) is None,
    decreases seqs.len(),
{
    let n = choose|n: int| #[trigger]
        none_before(seqs, req, n) && (n == seqs.len() || (n < seqs.len() && seqs[n].method
            == req.method && uri::same_shape(seqs[n].uri, req.uri) && seqs[n].responses.len()
            == 0));
    if n > 0 {
        assert(!(seqs[0].method == req.method && uri::same_shape(seqs[0].uri, req.uri)));
        let rest = seqs.drop_first();
        assert(none_before(rest, req, n - 1)) by {
            assert forall|j: int| 0 <= j < n - 1 implies !((#[trigger] rest[j]).method
                == req.method && uri::same_shape(rest[j].uri, req.uri)) by {
                assert(rest[j] == seqs[j + 1]);
            }
        }
        if n < seqs.len() {
            assert(rest[n - 1] == seqs[n]);
        }
        lemma_no_sequence(rest, req);
    }
}

/// Without a recording and a sequence for it, a request is answered by the swap of a
/// similar request of its service and tenant, if swaps are enabled.
pub proof fn law_swap_answers(
    s: ProxyView,
    lib: LibraryView,
    req: RoutedRequestView,
    e: MockEntryView,
)
    requires
        req.mode == Mode::Mock,
        not_recorded(lib, req),
        no_sequence_for(s.sequences, req),
        matcher::smart_swap(
            io::entries_in(
                ordmap::sorted_pairs::<String, SegmentView>(lib),
                routing::service_key(req.service_id),
                Some(req.tenant),
            ),
            req.method,
            req.uri,
            req.body,
        ) == Some(e),
        sendable(e.response),
    ensures
        step_for(s, lib, true, req) is Reply,
        is_served(step_for(s, lib, true, req)->Reply_0, e.response, "x-ghost-swapmatch"@),
        step_label(s, lib, true, req) == "smart_swap"@,
        after_step(s, lib, true, req).counters == s.counters,
        after_step(s, lib, true, req).unmatched == s.unmatched,
        step_label(s, lib, false, req) == "miss"@,
{
    lemma_no_sequence(s.sequences, req);
    lemma_served_as(e.response, "X-Ghost-SwapMatch"@);
    lemma_source_names_lower();
}

/// A request that nothing answers gets the configured answer and is remembered with its
/// method, URI and body, after those before it. Nothing else changes.
pub proof fn law_miss_is_remembered(
    s: ProxyView,
    lib: LibraryView,
    smart_swap: bool,
    req: RoutedRequestView,
)
    requires
        req.mode == Mode::Mock,
        not_recorded(lib, req),
        no_sequence_for(s.sequences, req),
        smart_swap ==> matcher::smart_swap(
            io::entries_in(
                ordmap::sorted_pairs::<String, SegmentView>(lib),
                routing::service_key(req.service_id),
                Some(req.tenant),
            ),
            req.method,
            req.uri,
            req.body,
        ) is None,
    ensures
        step_for(s, lib, smart_swap, req) is Reply,
        ({
            let r = step_for(s, lib, smart_swap, req)->Reply_0;
            &&& 100 <= s.config.unmatched_status <= 999 ==> r.status == s.config.unmatched_status
            &&& !(100 <= s.config.unmatched_status <= 999) ==> r.status == 404
            &&& r.body == vstd::utf8::encode_utf8(s.config.unmatched_body)
            &&& r.headers.contains(("x-ghost-miss"@, "true"@))
        }),
        step_label(s, lib, smart_swap, req) == "miss"@,
        after_step(s, lib, smart_swap, req).unmatched.len() == s.unmatched.len() + 1,
        after_step(s, lib, smart_swap, req).unmatched.drop_last() == s.unmatched,
        after_step(s, lib, smart_swap, req).unmatched.last().method == req.method,
        after_step(s, lib, smart_swap, req).unmatched.last().uri == req.uri,
        after_step(s, lib, smart_swap, req).unmatched.last().body == req.body,
        after_step(s, lib, smart_swap, req).counters == s.counters,
        after_step(s, lib, smart_swap, req).sequences == s.sequences,
        after_step(s, lib, smart_swap, req).telemetry == s.telemetry,
        after_step(s, lib, smart_swap, req).served == s.served,
{
    lemma_no_sequence(s.sequences, req);
    responses::law_miss_is_as_configured(s.config);
    assert(after_step(s, lib, smart_swap, req).unmatched.drop_last() =~= s.unmatched);
}

/// While recordings are processed a request is turned away and changes nothing; a
/// forwarded request changes nothing before its reply.
pub proof fn law_only_mock_changes_state(
    s: ProxyView,
    lib: LibraryView,
    smart_swap: bool,
    req: RoutedRequestView,
)
    requires
        req.mode != Mode::Mock,
    ensures
        after_step(s, lib, smart_swap, req) == s,
        req.mode == Mode::Transitioning ==> step_for(s, lib, smart_swap, req) is Reply && step_for(
            s,
            lib,
            smart_swap,
            req,
        )->Reply_0.status == 503,
        req.mode == Mode::Learn ==> step_for(s, lib, smart_swap, req) == StepView::Forward(
            req.upstream + req.forward_uri,
            true,
        ),
        req.mode == Mode::Passthrough ==> step_for(s, lib, smart_swap, req) == StepView::Forward(
            req.upstream + req.forward_uri,
            false,
        ),
        req.mode == Mode::Transitioning ==> step_label(s, lib, smart_swap, req)
            == "transitioning"@,
        req.mode == Mode::Learn ==> step_label(s, lib, smart_swap, req) == "learn"@,
        req.mode == Mode::Passthrough ==> step_label(s, lib, smart_swap, req) == "passthrough"@,
{
}

/// An answer from recordings moves at most a counter, adds at most one unmatched request,
/// and touches nothing but these and what is counted.
pub proof fn law_answer_keeps_the_rest(
    s: ProxyView,
    lib: LibraryView,
    smart_swap: bool,
    req: RoutedRequestView,
)
    ensures
        ({
            let after = after_step(s, lib, smart_swap, req);
            &&& after.mode == s.mode
            &&& after.routes == s.routes
            &&& after.sequences == s.sequences
            &&& after.config == s.config
            &&& after.proxied == s.proxied
            &&& after.recorded == s.recorded
            &&& after.markov == s.markov
            &&& after.logged == s.logged
            &&& s.unmatched.len() <= after.unmatched.len() <= s.unmatched.len() + 1
            &&& after.unmatched.take(s.unmatched.len() as int) == s.unmatched
        }),
{
    let after = after_step(s, lib, smart_swap, req);
    assert(after.unmatched.take(s.unmatched.len() as int) =~= s.unmatched);
}

/// A recorded exchange: the client is given the reply of the upstream, and the library,
/// the result and, for a request of a service, the traffic log have the exchange, each
/// with the request and with the status, the body and the latency of the reply. The
/// bodies are short enough to be stored whole, that of the reply is UTF-8, and the status
/// and the header names are such.
pub proof fn law_exchange_is_learned(
    before: ProxyView,
    after: ProxyView,
    lib_before: LibraryView,
    lib_after: LibraryView,
    r: Learned,
    req: RoutedRequestView,
    request_len: nat,
    reply: UpstreamReply,
    for_all: Seq<Seq<char>>,
    max_body: nat,
    now: Timestamp,
    latency_bits: u64,
)
    requires
        learned(
            before,
            after,
            lib_before,
            lib_after,
            r,
            req,
            request_len,
            reply,
            for_all,
            max_body,
            now,
            latency_bits,
        ),
        request_len <= max_body,
        reply.body@.len() <= max_body,
        vstd::utf8::valid_utf8(reply.body@),
        100 <= reply.status <= 999,
        recording::headers_by_name(reply.headers.deep_view()).dom().finite(),
        forall|k: Seq<char>| #[trigger]
            recording::headers_by_name(reply.headers.deep_view()).contains_key(k)
                ==> headers::valid_name(k),
    ensures
        r.response.deep_view().status == reply.status,
        r.response.deep_view().body == reply.body@,
        r.response.deep_view().delay_ms == 0,
        has_exchange(r.entry.deep_view(), req, reply),
        r.traffic is Some <==> req.service_id is Some,
        r.traffic is Some ==> has_exchange(r.traffic->0.deep_view(), req, reply),
        r.traffic is Some ==> r.traffic->0.deep_view().response == r.entry.deep_view().response,
        req.service_id is Some ==> r.service@ == req.service_id->0,
        req.service_id is None ==> r.service@ == "_global"@,
        io::library_entry(lib_after, r.service@, req.method, req.uri, req.tenant) == Some(
            r.entry.deep_view(),
        ),
        after.sequences == before.sequences,
        after.counters == before.counters,
        after.unmatched == before.unmatched,
        after.mode == before.mode,
        after.routes == before.routes,
        after.config == before.config,
        req.service_id is Some && before.logged < u64::MAX ==> after.logged == before.logged + 1,
        req.service_id is None ==> after.logged == before.logged,
        after.served == before.served,
        after.markov == before.markov,
        lib_before.dom().finite() ==> forall|
            svc: Seq<char>,
            m: Seq<char>,
            u: Seq<char>,
            t: Seq<char>,
        |
            svc != r.service@ || m != req.method || u != req.uri || t != req.tenant ==> (
            #[trigger] io::library_entry(lib_after, svc, m, u, t)) == io::library_entry(
                lib_before,
                svc,
                m,
                u,
                t,
            ),
{
    let hs = recording::headers_by_name(reply.headers.deep_view());
    let svc = routing::service_key(req.service_id);
    recording::law_exchange_is_recorded_as_it_was(
        req,
        request_len,
        reply.status,
        hs,
        reply.body@,
        reply.latency_ms,
        for_all,
        max_body,
        now,
    );
    responses::law_reply_is_handed_on(reply.status, hs, reply.body@);
    recording::law_traffic_log_has_exchange(r.entry.deep_view(), now, before.logged);
    let e = r.entry.deep_view();
    assert(io::entry_key(e) == (req.method, req.uri, req.tenant));
    io::law_recorded_is_found(lib_before, svc, e);
    if lib_before.dom().finite() {
        assert forall|s2: Seq<char>, m: Seq<char>, u: Seq<char>, t: Seq<char>|
            s2 != svc || m != req.method || u != req.uri || t != req.tenant implies (
        #[trigger] io::library_entry(lib_after, s2, m, u, t)) == io::library_entry(
            lib_before,
            s2,
            m,
            u,
            t,
        ) by {
            io::law_insert_leaves_other_lookups(lib_before, svc, svc, e, s2, m, u, t);
        }
    }
}

/// The entry has the request and, of the reply, the status, the latency and the body.
pub open spec fn has_exchange(e: MockEntryView, req: RoutedRequestView, reply: UpstreamReply)
    -> bool {
    &&& e.request.method == req.method
    &&& e.request.uri == req.uri
    &&& e.request.body == req.body
    &&& e.tenant == req.tenant
    &&& e.service_id == req.service_id
    &&& e.response.status == reply.status
    &&& e.response.latency_ms == reply.latency_ms
    &&& vstd::utf8::encode_utf8(e.response.body) == reply.body@
}

// ─── Administration ──────────────────────────────────────────────────────────

/// What a change of the mode is answered and persisted with.
pub struct ModeChange {
    pub label: String,
    /// The content of the mode file; without one the file stays.
    pub persisted: Option<String>,
}

/// The sequences without those of this id.
pub open spec fn without_sequence(seqs: Seq<MockSequenceView>, id: Seq<char>) -> Seq<
    MockSequenceView,
>
    decreases seqs.len(),
{
    if seqs.len() == 0 {
        Seq::empty()
    } else if seqs.last().id == id {
        without_sequence(seqs.drop_last(), id)
    } else {
        without_sequence(seqs.drop_last(), id).push(seqs.last())
    }
}

fn retain_other(seqs: &Vec<MockSequence>, id: &str) -> (r: Vec<MockSequence>)
    ensures
        r.deep_view() == without_sequence(seqs.deep_view(), id@),
{
    let ghost all = seqs.deep_view();
    let mut out: Vec<MockSequence> = Vec::new();
    let mut i: usize = 0;
    assert(out.deep_view() =~= Seq::empty());
    assert(all.take(0) =~= Seq::empty());
    while i < seqs.len()
        invariant
            i <= seqs@.len(),
            all == seqs.deep_view(),
            out.deep_view() == without_sequence(all.take(i as int), id@),
        decreases seqs@.len() - i,
    {
        let ghost before = out.deep_view();
        assert(all.take(i + 1).drop_last() =~= all.take(i as int));
        assert(all.take(i + 1).last() == seqs@[i as int].deep_view());
        if !same_text(seqs[i].id.as_str(), id) {
            let copy = seqs[i].dup();
            let ghost c = copy.deep_view();
            out.push(copy);
            assert(out.deep_view() =~= before.push(c));
        }
        i += 1;
    }
    assert(all.take(all.len() as int) =~= all);
    out
}

impl ProxyState {
    /// Sets the global mode. The mode in which recordings are processed is not
    /// persisted.
    pub fn set_mode(&mut self, mode: Mode) -> (r: ModeChange)
        ensures
            final(self).deep_view() == with_mode(old(self).deep_view(), mode),
            r.label@ == types::mode_name(mode),
            r.persisted.deep_view() == files::mode_file_content(mode),
    {
        self.mode = mode;
        ModeChange { label: mode.name(), persisted: mode_file_text(&mode) }
    }

    /// Replaces the routes.
    pub fn set_upstreams(&mut self, routes: Vec<UpstreamRoute>)
        ensures
            final(self).deep_view() == with_routes(old(self).deep_view(), routes.deep_view()),
    {
        self.routes = routes;
    }

    /// Adds a sequence in place of one with the same id.
    pub fn create_sequence(&mut self, seq: MockSequence)
        ensures
            final(self).deep_view() == with_sequence(old(self).deep_view(), seq.deep_view()),
    {
        let mut kept = retain_other(&self.sequences, seq.id.as_str());
        let ghost before = kept.deep_view();
        let ghost s = seq.deep_view();
        kept.push(seq);
        assert(kept.deep_view() =~= before.push(s));
        self.sequences = kept;
    }

    /// Starts a sequence anew.
    pub fn reset_sequence(&mut self, id: &str)
        ensures
            final(self).deep_view() == with_reset(old(self).deep_view(), id@),
    {
        let _ = self.counters.remove(&id.to_owned());
    }

    /// Removes a sequence.
    pub fn delete_sequence(&mut self, id: &str)
        ensures
            final(self).deep_view() == with_deleted(old(self).deep_view(), id@),
    {
        self.sequences = retain_other(&self.sequences, id);
        let _ = self.counters.remove(&id.to_owned());
    }
}

/// The state with this global mode.
pub open spec fn with_mode(s: ProxyView, mode: Mode) -> ProxyView {
    ProxyView { mode, ..s }
}

/// The state with these routes.
pub open spec fn with_routes(s: ProxyView, routes: Seq<UpstreamRouteView>) -> ProxyView {
    ProxyView { routes, ..s }
}

/// The state with this sequence in place of one with the same id.
pub open spec fn with_sequence(s: ProxyView, seq: MockSequenceView) -> ProxyView {
    ProxyView { sequences: without_sequence(s.sequences, seq.id).push(seq), ..s }
}

/// The state with the sequence of this id started anew.
pub open spec fn with_reset(s: ProxyView, id: Seq<char>) -> ProxyView {
    ProxyView { counters: s.counters.remove(id), ..s }
}

/// The state without the sequence of this id.
pub open spec fn with_deleted(s: ProxyView, id: Seq<char>) -> ProxyView {
    ProxyView {
        sequences: without_sequence(s.sequences, id),
        counters: s.counters.remove(id),
        ..s
    }
}

/// Setting the mode, the routes or a sequence changes nothing else.
pub proof fn law_settings_are_apart(
    s: ProxyView,
    mode: Mode,
    routes: Seq<UpstreamRouteView>,
    seq: MockSequenceView,
    id: Seq<char>,
)
    ensures
        with_mode(s, mode).mode == mode,
        with_mode(s, mode) == (ProxyView { mode: with_mode(s, mode).mode, ..s }),
        with_routes(s, routes).routes == routes,
        with_routes(s, routes) == (ProxyView { routes: with_routes(s, routes).routes, ..s }),
        with_sequence(s, seq) == (ProxyView {
            sequences: with_sequence(s, seq).sequences,
            ..s
        }),
        with_reset(s, id) == (ProxyView { counters: with_reset(s, id).counters, ..s }),
        with_deleted(s, id) == (ProxyView {
            sequences: with_deleted(s, id).sequences,
            counters: with_deleted(s, id).counters,
            ..s
        }),
{
}

/// A created sequence is in the list once, as the last one; the sequences of other ids
/// stand before it in their order.
pub proof fn law_created_sequence_replaces(s: ProxyView, seq: MockSequenceView)
    ensures
        with_sequence(s, seq).sequences == s.sequences.filter(
            |q: MockSequenceView| q.id != seq.id,
        ).push(seq),
{
    lemma_without_is_filter(s.sequences, seq.id);
}

/// A deleted sequence is gone, and so is its counter; the sequences of other ids stand in
/// their order and go on where they were.
pub proof fn law_deleted_sequence_starts_over(s: ProxyView, id: Seq<char>)
    ensures
        with_deleted(s, id).sequences == s.sequences.filter(|q: MockSequenceView| q.id != id),
        !with_deleted(s, id).counters.contains_key(id),
        forall|other: Seq<char>|
            other != id ==> (#[trigger] with_deleted(s, id).counters.contains_key(other)
                == s.counters.contains_key(other)) && (s.counters.contains_key(other)
                ==> with_deleted(s, id).counters[other] == s.counters[other]),
{
    lemma_without_is_filter(s.sequences, id);
}

/// A sequence that is started anew answers with its first response; the others go on
/// where they were.
pub proof fn law_reset_sequence_answers_first(
    s: ProxyView,
    lib: LibraryView,
    smart_swap: bool,
    req: RoutedRequestView,
    i: int,
)
    requires
        req.mode == Mode::Mock,
        not_recorded(lib, req),
        first_sequence_at(s.sequences, req, i),
        sendable(s.sequences[i].responses[0]),
    ensures
        step_for(with_reset(s, s.sequences[i].id), lib, smart_swap, req) is Reply,
        is_served(
            step_for(with_reset(s, s.sequences[i].id), lib, smart_swap, req)->Reply_0,
            s.sequences[i].responses[0],
            "x-ghost-sequence"@,
        ),
        forall|other: Seq<char>|
            other != s.sequences[i].id ==> (#[trigger] with_reset(
                s,
                s.sequences[i].id,
            ).counters.contains_key(other) == s.counters.contains_key(other)) && (
            s.counters.contains_key(other) ==> with_reset(s, s.sequences[i].id).counters[other]
                == s.counters[other]),
{
    law_sequence_answers(with_reset(s, s.sequences[i].id), lib, smart_swap, req, i, 0, 0);
}

proof fn lemma_without_is_filter(seqs: Seq<MockSequenceView>, id: Seq<char>)
    ensures
        without_sequence(seqs, id) == seqs.filter(|q: MockSequenceView| q.id != id),
    decreases seqs.len(),
{
    reveal(Seq::filter);
    if seqs.len() > 0 {
        lemma_without_is_filter(seqs.drop_last(), id);
    }
}

proof fn lemma_without_sequence(seqs: Seq<MockSequenceView>, id: Seq<char>)
    ensures
        forall|i: int|
            0 <= i < without_sequence(seqs, id).len() ==> (#[trigger] without_sequence(
                seqs,
                id,
            )[i]).id != id,
        forall|q: MockSequenceView|
            q.id != id ==> (without_sequence(seqs, id).contains(q) == #[trigger] seqs.contains(q)),
    decreases seqs.len(),
{
    if seqs.len() > 0 {
        let init = seqs.drop_last();
        let before = without_sequence(init, id);
        let r = without_sequence(seqs, id);
        lemma_without_sequence(init, id);
        assert forall|i: int| 0 <= i < r.len() implies (#[trigger] r[i]).id != id by {
            if i < before.len() {
                assert(r[i] == before[i]);
            }
        }
        assert forall|q: MockSequenceView| q.id != id implies r.contains(q)
            == #[trigger] seqs.contains(q) by {
            assert(before.contains(q) == init.contains(q));
            if r.contains(q) {
                let i = r.index_of(q);
                if i < before.len() {
                    assert(before[i] == q);
                    let j = init.index_of(q);
                    assert(seqs[j] == q);
                } else {
                    assert(seqs[seqs.len() - 1] == q);
                }
            }
            if seqs.contains(q) {
                let i = seqs.index_of(q);
                if i < init.len() {
                    assert(init[i] == q);
                    let j = before.index_of(q);
                    assert(r[j] == q);
                } else {
                    assert(r[r.len() - 1] == q);
                }
            }
        }
    } else {
        assert forall|q: MockSequenceView| q.id != id implies without_sequence(seqs, id).contains(q)
            == #[trigger] seqs.contains(q) by {
            assert(without_sequence(seqs, id) =~= seqs);
        }
    }
}

/// Removing a sequence leaves none of its id and keeps all others.
pub proof fn law_deleted_sequence_is_gone(
    seqs: Seq<MockSequenceView>,
    id: Seq<char>,
    other: MockSequenceView,
)
    requires
        other.id != id,
    ensures
        forall|i: int|
            0 <= i < without_sequence(seqs, id).len() ==> (#[trigger] without_sequence(
                seqs,
                id,
            )[i]).id != id,
        without_sequence(seqs, id).contains(other) == seqs.contains(other),
{
    lemma_without_sequence(seqs, id);
}

/// A sequence that was started anew gives its first response next.
pub proof fn law_reset_rewinds(seq: MockSequenceView, counters: Map<Seq<char>, u32>)
    requires
        seq.responses.len() > 0,
    ensures
        next_response(seq, counters.remove(seq.id)) == seq.responses[0],
{
}

} // verus!
