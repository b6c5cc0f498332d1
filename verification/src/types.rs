//! The values that the proxy records and replays.
use crate::dup::Dup;
use crate::json::Json;
use crate::json::JsonModel;
use crate::ordmap::OrdMap;
use crate::text::same_text;
use vstd::prelude::*;

verus! {

/// The tenant of entries and requests that name none, and the service of requests
/// that no route matches.
pub const GLOBAL_TENANT: &'static str = "_global";

// ─── Mode ────────────────────────────────────────────────────────────────────

/// What the proxy does with a request.
#[derive(Clone, Copy, Debug, PartialEq, Eq, Structural)]
pub enum Mode {
    Learn,
    Mock,
    Passthrough,
    Transitioning,
}

impl DeepView for Mode {
    type V = Mode;

    open spec fn deep_view(&self) -> Mode {
        *self
    }
}

impl Dup for Mode {
    fn dup(&self) -> (r: Self) {
        *self
    }
}

/// The label of a mode in files and on the wire.
pub open spec fn mode_label(mode: Mode) -> Seq<char> {
    match mode {
        Mode::Learn => "LEARN"@,
        Mode::Mock => "MOCK"@,
        Mode::Passthrough => "PASSTHROUGH"@,
        Mode::Transitioning => "TRANSITIONING"@,
    }
}

/// The mode with the given label, if there is one.
pub open spec fn labelled_mode(label: Seq<char>) -> Option<Mode> {
    if label == "LEARN"@ {
        Some(Mode::Learn)
    } else if label == "MOCK"@ {
        Some(Mode::Mock)
    } else if label == "PASSTHROUGH"@ {
        Some(Mode::Passthrough)
    } else if label == "TRANSITIONING"@ {
        Some(Mode::Transitioning)
    } else {
        None
    }
}

/// The name of a mode in replies and logs.
pub open spec fn mode_name(mode: Mode) -> Seq<char> {
    match mode {
        Mode::Learn => "Learn"@,
        Mode::Mock => "Mock"@,
        Mode::Passthrough => "Passthrough"@,
        Mode::Transitioning => "Transitioning"@,
    }
}

/// The mode that a JSON value names: a string that is a label.
pub open spec fn mode_of_model(m: JsonModel) -> Option<Mode> {
    match m {
        JsonModel::Str(s) => labelled_mode(s),
        _ => None,
    }
}

/// A label leads back to its mode.
pub proof fn law_mode_label_round_trip(mode: Mode)
    ensures
        labelled_mode(mode_label(mode)) == Some(mode),
{
    reveal_strlit("LEARN");
    reveal_strlit("MOCK");
    reveal_strlit("PASSTHROUGH");
    reveal_strlit("TRANSITIONING");
    assert("LEARN"@.len() == 5);
    assert("MOCK"@.len() == 4);
    assert("PASSTHROUGH"@.len() == 11);
    assert("TRANSITIONING"@.len() == 13);
}

impl Mode {
    /// The label of the mode in files and on the wire.
    pub fn label(&self) -> (r: String)
        ensures
            r@ == mode_label(*self),
    {
        match self {
            Mode::Learn => "LEARN".to_owned(),
            Mode::Mock => "MOCK".to_owned(),
            Mode::Passthrough => "PASSTHROUGH".to_owned(),
            Mode::Transitioning => "TRANSITIONING".to_owned(),
        }
    }

    /// The mode with the given label. Labels are in upper case.
    pub fn from_label(label: &str) -> (r: Option<Mode>)
        ensures
            r == labelled_mode(label@),
    {
        if same_text(label, "LEARN") {
            Some(Mode::Learn)
        } else if same_text(label, "MOCK") {
            Some(Mode::Mock)
        } else if same_text(label, "PASSTHROUGH") {
            Some(Mode::Passthrough)
        } else if same_text(label, "TRANSITIONING") {
            Some(Mode::Transitioning)
        } else {
            None
        }
    }

    /// The name of the mode in replies and logs.
    pub fn name(&self) -> (r: String)
        ensures
            r@ == mode_name(*self),
    {
        match self {
            Mode::Learn => "Learn".to_owned(),
            Mode::Mock => "Mock".to_owned(),
            Mode::Passthrough => "Passthrough".to_owned(),
            Mode::Transitioning => "Transitioning".to_owned(),
        }
    }

    /// The mode as a JSON value.
    pub fn to_json(&self) -> (r: Json)
        ensures
            r.model() == JsonModel::Str(mode_label(*self)),
    {
        Json::Str(self.label())
    }

    /// The mode that a JSON value names.
    pub fn from_json(value: &Json) -> (r: Option<Mode>)
        ensures
            r == mode_of_model(value.model()),
    {
        match value {
            Json::Str(s) => Mode::from_label(s.as_str()),
            _ => None,
        }
    }
}

// ─── Mock library types ──────────────────────────────────────────────────────

/// A recorded request.
#[derive(Debug)]
pub struct MockRequest {
    pub method: String,
    pub uri: String,
    pub body: String,
}

/// A recorded response.
pub struct MockResponse {
    pub status: u16,
    pub headers: OrdMap<String, String>,
    pub body: String,
    pub latency_ms: u64,
}

/// A recorded request with its response.
pub struct MockEntry {
    pub id: String,
    pub timestamp: String,
    pub request: MockRequest,
    pub response: MockResponse,
    pub service_id: Option<String>,
    pub tenant: String,
}

#[verifier::ext_equal]
pub struct MockRequestView {
    pub method: Seq<char>,
    pub uri: Seq<char>,
    pub body: Seq<char>,
}

#[verifier::ext_equal]
pub struct MockResponseView {
    pub status: u16,
    pub headers: Map<Seq<char>, Seq<char>>,
    pub body: Seq<char>,
    pub latency_ms: u64,
}

#[verifier::ext_equal]
pub struct MockEntryView {
    pub id: Seq<char>,
    pub timestamp: Seq<char>,
    pub request: MockRequestView,
    pub response: MockResponseView,
    pub service_id: Option<Seq<char>>,
    pub tenant: Seq<char>,
}

impl DeepView for MockRequest {
    type V = MockRequestView;

    open spec fn deep_view(&self) -> MockRequestView {
        MockRequestView { method: self.method@, uri: self.uri@, body: self.body@ }
    }
}

impl DeepView for MockResponse {
    type V = MockResponseView;

    open spec fn deep_view(&self) -> MockResponseView {
        MockResponseView {
            status: self.status,
            headers: self.headers.deep_view(),
            body: self.body@,
            latency_ms: self.latency_ms,
        }
    }
}

impl DeepView for MockEntry {
    type V = MockEntryView;

    open spec fn deep_view(&self) -> MockEntryView {
        MockEntryView {
            id: self.id@,
            timestamp: self.timestamp@,
            request: self.request.deep_view(),
            response: self.response.deep_view(),
            service_id: self.service_id.deep_view(),
            tenant: self.tenant@,
        }
    }
}

impl Dup for MockRequest {
    fn dup(&self) -> (r: Self) {
        MockRequest { method: self.method.clone(), uri: self.uri.clone(), body: self.body.clone() }
    }
}

impl Dup for MockResponse {
    fn dup(&self) -> (r: Self) {
        MockResponse {
            status: self.status,
            headers: self.headers.dup(),
            body: self.body.clone(),
            latency_ms: self.latency_ms,
        }
    }
}

impl Dup for MockEntry {
    fn dup(&self) -> (r: Self) {
        MockEntry {
            id: self.id.clone(),
            timestamp: self.timestamp.clone(),
            request: self.request.dup(),
            response: self.response.dup(),
            service_id: self.service_id.dup(),
            tenant: self.tenant.clone(),
        }
    }
}

// ─── Sequence types ──────────────────────────────────────────────────────────

/// One response of a sequence.
pub struct SequenceResponse {
    pub status: u16,
    pub headers: OrdMap<String, String>,
    pub body: String,
    pub latency_ms: u64,
}

/// An ordered list of responses for an endpoint. Each matching request is served
/// the next one.
pub struct MockSequence {
    pub id: String,
    pub method: String,
    pub uri: String,
    pub responses: Vec<SequenceResponse>,
    pub loop_responses: bool,
}

#[verifier::ext_equal]
pub struct MockSequenceView {
    pub id: Seq<char>,
    pub method: Seq<char>,
    pub uri: Seq<char>,
    pub responses: Seq<MockResponseView>,
    pub loop_responses: bool,
}

impl DeepView for SequenceResponse {
    type V = MockResponseView;

    open spec fn deep_view(&self) -> MockResponseView {
        MockResponseView {
            status: self.status,
            headers: self.headers.deep_view(),
            body: self.body@,
            latency_ms: self.latency_ms,
        }
    }
}

impl DeepView for MockSequence {
    type V = MockSequenceView;

    open spec fn deep_view(&self) -> MockSequenceView {
        MockSequenceView {
            id: self.id@,
            method: self.method@,
            uri: self.uri@,
            responses: self.responses.deep_view(),
            loop_responses: self.loop_responses,
        }
    }
}

impl Dup for SequenceResponse {
    fn dup(&self) -> (r: Self) {
        SequenceResponse {
            status: self.status,
            headers: self.headers.dup(),
            body: self.body.clone(),
            latency_ms: self.latency_ms,
        }
    }
}

impl Dup for MockSequence {
    fn dup(&self) -> (r: Self) {
        MockSequence {
            id: self.id.clone(),
            method: self.method.clone(),
            uri: self.uri.clone(),
            responses: self.responses.dup(),
            loop_responses: self.loop_responses,
        }
    }
}

// ─── Runtime config ──────────────────────────────────────────────────────────

/// What the operator can tune without a restart: the answer to a request that
/// nothing matches.
#[derive(Debug)]
pub struct RuntimeConfig {
    pub unmatched_status: u16,
    pub unmatched_body: String,
}

#[verifier::ext_equal]
pub struct RuntimeConfigView {
    pub unmatched_status: u16,
    pub unmatched_body: Seq<char>,
}

impl DeepView for RuntimeConfig {
    type V = RuntimeConfigView;

    open spec fn deep_view(&self) -> RuntimeConfigView {
        RuntimeConfigView {
            unmatched_status: self.unmatched_status,
            unmatched_body: self.unmatched_body@,
        }
    }
}

/// The hint that a request without a match is answered with at start.
pub const DEFAULT_UNMATCHED_BODY: &'static str =
    "{\"error\":\"no mock found\",\"hint\":\"switch to LEARN mode and replay the request, or import a recording\"}";

/// The answer at start to a request that nothing matches: 404 with a hint.
pub open spec fn default_answer() -> RuntimeConfigView {
    RuntimeConfigView { unmatched_status: 404, unmatched_body: DEFAULT_UNMATCHED_BODY@ }
}

impl RuntimeConfig {
    /// The answer at start: 404 with a hint.
    pub fn new() -> (r: Self)
        ensures
            r.deep_view() == default_answer(),
    {
        RuntimeConfig {
            unmatched_status: 404,
            unmatched_body: DEFAULT_UNMATCHED_BODY.to_owned(),
        }
    }

    /// Takes over the values that are given and keeps the others.
    pub fn update(&mut self, unmatched_status: Option<u16>, unmatched_body: Option<String>)
        ensures
            final(self).deep_view() == updated_config(
                old(self).deep_view(),
                unmatched_status,
                unmatched_body.deep_view(),
            ),
            final(self).unmatched_status == (match unmatched_status {
                Some(v) => v,
                None => old(self).unmatched_status,
            }),
            final(self).unmatched_body@ == (match unmatched_body {
                Some(v) => v@,
                None => old(self).unmatched_body@,
            }),
    {
        if let Some(v) = unmatched_status {
            self.unmatched_status = v;
        }
        if let Some(v) = unmatched_body {
            self.unmatched_body = v;
        }
    }
}

/// The labels of the modes.
pub proof fn law_mode_labels()
    ensures
        labelled_mode("LEARN"@) == Some(Mode::Learn),
        labelled_mode("MOCK"@) == Some(Mode::Mock),
        labelled_mode("PASSTHROUGH"@) == Some(Mode::Passthrough),
        labelled_mode("TRANSITIONING"@) == Some(Mode::Transitioning),
        mode_label(Mode::Learn) == "LEARN"@,
        mode_label(Mode::Mock) == "MOCK"@,
        mode_label(Mode::Passthrough) == "PASSTHROUGH"@,
        mode_label(Mode::Transitioning) == "TRANSITIONING"@,
{
    law_mode_label_round_trip(Mode::Learn);
    law_mode_label_round_trip(Mode::Mock);
    law_mode_label_round_trip(Mode::Passthrough);
    law_mode_label_round_trip(Mode::Transitioning);
}

/// A text names a mode exactly if it is its label, in upper case.
pub proof fn law_only_labels_name_modes(label: Seq<char>, mode: Mode)
    ensures
        labelled_mode(label) == Some(mode) <==> label == mode_label(mode),
        mode_of_model(JsonModel::Str(label)) == labelled_mode(label),
        mode_of_model(JsonModel::Str(mode_label(mode))) == Some(mode),
        mode_of_model(JsonModel::Null) is None,
{
    law_mode_label_round_trip(mode);
}

/// The answer to a request that nothing matches, with the given values taken over.
pub open spec fn updated_config(
    config: RuntimeConfigView,
    unmatched_status: Option<u16>,
    unmatched_body: Option<Seq<char>>,
) -> RuntimeConfigView {
    RuntimeConfigView {
        unmatched_status: match unmatched_status {
            Some(v) => v,
            None => config.unmatched_status,
        },
        unmatched_body: match unmatched_body {
            Some(v) => v,
            None => config.unmatched_body,
        },
    }
}

/// An update takes over what it gives and keeps the rest.
pub proof fn law_update_keeps_the_rest(config: RuntimeConfigView, status: u16, body: Seq<char>)
    ensures
        updated_config(config, Some(status), Some(body)).unmatched_status == status,
        updated_config(config, Some(status), Some(body)).unmatched_body == body,
        updated_config(config, Some(status), None).unmatched_status == status,
        updated_config(config, Some(status), None).unmatched_body == config.unmatched_body,
        updated_config(config, None, Some(body)).unmatched_status == config.unmatched_status,
        updated_config(config, None, Some(body)).unmatched_body == body,
        updated_config(config, None, None) == config,
{
}

/// The names of the modes in replies.
pub proof fn law_mode_names()
    ensures
        mode_name(Mode::Learn) == "Learn"@,
        mode_name(Mode::Mock) == "Mock"@,
        mode_name(Mode::Passthrough) == "Passthrough"@,
        mode_name(Mode::Transitioning) == "Transitioning"@,
{
}

} // verus!
