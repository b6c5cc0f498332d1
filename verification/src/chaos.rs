//! Chaos injection: configuration, endpoint rules, latency and error choice, and
//! the path as it may be logged.
//!
//! Rates, weights and multipliers are IEEE 754 doubles and are kept as their bits.
use crate::chars;
use crate::chars::digit;
use crate::chars::hex;
use crate::chars::trim_slashes;
use crate::dup::Dup;
use crate::ordmap::OrdMap;
use crate::text;
use crate::text::chars_of;
use crate::text::join_text;
use crate::text::same_text;
use crate::text::split_text;
use crate::uri;
use crate::uri::split_uri;
use vstd::prelude::*;
use vstd::slice::slice_subrange;
use vstd::string::StringExecFns;

verus! {

// ─── Doubles ─────────────────────────────────────────────────────────────────

/// The bits of the double 1.
pub const ONE_BITS: u64 = 0x3ff0_0000_0000_0000;

/// The bits of positive infinity, the greatest of the bits of a positive double.
pub const INFINITY_BITS: u64 = 0x7ff0_0000_0000_0000;

/// The double with these bits is greater than zero.
pub open spec fn positive(bits: u64) -> bool {
    0 < bits <= INFINITY_BITS
}

/// Whether the double with these bits is greater than zero.
pub fn is_positive(bits: u64) -> (r: bool)
    ensures
        r == positive(bits),
{
    0 < bits && bits <= INFINITY_BITS
}

// ─── Configuration ───────────────────────────────────────────────────────────

/// How errors are spread over requests.
#[derive(Clone, Copy, Debug, PartialEq, Eq, Structural)]
pub enum ChaosModel {
    /// Each request for itself.
    Uniform,
    /// In spells of degraded service between spells of healthy service.
    Markov,
}

/// Settings of the Markov model.
#[derive(Clone, Copy, Debug, PartialEq, Eq, Structural)]
pub struct MarkovConfig {
    /// Mean length of a healthy spell in milliseconds.
    pub mean_dwell_healthy_ms: u64,
    /// Mean length of a degraded spell in milliseconds.
    pub mean_dwell_degraded_ms: u64,
    /// Bits of the error rate in a degraded spell; a healthy one has no errors.
    pub degraded_error_rate: u64,
    /// Bits of the latency multiplier in a degraded spell.
    pub degraded_latency_mult: u64,
}

/// 30 seconds.
pub fn default_dwell_healthy_ms() -> (r: u64)
    ensures
        r == 30_000,
{
    30_000
}

/// 5 seconds.
pub fn default_dwell_degraded_ms() -> (r: u64)
    ensures
        r == 5_000,
{
    5_000
}

/// The bits of 0.6.
pub fn default_degraded_error_rate() -> (r: u64)
    ensures
        r == 0x3fe3_3333_3333_3333,
{
    0x3fe3_3333_3333_3333
}

/// The bits of 5.
pub fn default_degraded_latency_mult() -> (r: u64)
    ensures
        r == 0x4014_0000_0000_0000,
{
    0x4014_0000_0000_0000
}

/// The settings that count if none are given.
pub open spec fn default_markov() -> MarkovConfig {
    MarkovConfig {
        mean_dwell_healthy_ms: 30_000,
        mean_dwell_degraded_ms: 5_000,
        degraded_error_rate: 0x3fe3_3333_3333_3333,
        degraded_latency_mult: 0x4014_0000_0000_0000,
    }
}

impl Default for MarkovConfig {
    fn default() -> (r: Self)
        ensures
            r == default_markov(),
    {
        MarkovConfig {
            mean_dwell_healthy_ms: default_dwell_healthy_ms(),
            mean_dwell_degraded_ms: default_dwell_degraded_ms(),
            degraded_error_rate: default_degraded_error_rate(),
            degraded_latency_mult: default_degraded_latency_mult(),
        }
    }
}

/// A range to draw a latency from.
#[derive(Debug)]
pub struct LatencyJitter {
    pub min_ms: u64,
    pub max_ms: u64,
    /// `normal`, or anything else for an even spread.
    pub distribution: String,
}

/// The distribution that counts if none is given.
pub fn default_distribution() -> (r: String)
    ensures
        r@ == "uniform"@,
{
    "uniform".to_owned()
}

/// An error with its weight in the draw.
pub struct ErrorCodeEntry {
    pub status: u16,
    /// Bits of the weight.
    pub weight: u64,
    pub body: Option<String>,
    pub headers: Option<OrdMap<String, String>>,
}

/// A configuration for the paths that match a pattern.
pub struct EndpointRule {
    /// `*` matches one segment, `**` any number of them.
    pub uri_pattern: String,
    pub config: ChaosConfig,
}

/// The chaos configuration of a service or of an endpoint.
pub struct ChaosConfig {
    pub enabled: bool,
    pub latency_ms: u64,
    /// Bits of the error rate.
    pub error_rate: u64,
    pub error_status: u16,
    pub error_body: String,
    /// Counts instead of `latency_ms` if it is set.
    pub latency_jitter: Option<LatencyJitter>,
    /// Counts instead of `error_status` and `error_body` if a weight is positive.
    pub error_codes: Vec<ErrorCodeEntry>,
    /// The first rule that matches counts instead of this configuration.
    pub endpoint_rules: Vec<EndpointRule>,
    /// The modes in which chaos is injected; none means all.
    pub modes: Vec<String>,
    /// A name for display.
    pub preset: Option<String>,
    pub chaos_model: ChaosModel,
    pub markov: Option<MarkovConfig>,
}

#[verifier::ext_equal]
pub struct LatencyJitterView {
    pub min_ms: u64,
    pub max_ms: u64,
    pub distribution: Seq<char>,
}

#[verifier::ext_equal]
pub struct ErrorCodeEntryView {
    pub status: u16,
    pub weight: u64,
    pub body: Option<Seq<char>>,
    pub headers: Option<Map<Seq<char>, Seq<char>>>,
}

#[verifier::ext_equal]
pub struct EndpointRuleView {
    pub uri_pattern: Seq<char>,
    pub config: ChaosConfigView,
}

#[verifier::ext_equal]
pub struct ChaosConfigView {
    pub enabled: bool,
    pub latency_ms: u64,
    pub error_rate: u64,
    pub error_status: u16,
    pub error_body: Seq<char>,
    pub latency_jitter: Option<LatencyJitterView>,
    pub error_codes: Seq<ErrorCodeEntryView>,
    pub endpoint_rules: Seq<EndpointRuleView>,
    pub modes: Seq<Seq<char>>,
    pub preset: Option<Seq<char>>,
    pub chaos_model: ChaosModel,
    pub markov: Option<MarkovConfig>,
}

impl DeepView for LatencyJitter {
    type V = LatencyJitterView;

    open spec fn deep_view(&self) -> LatencyJitterView {
        LatencyJitterView {
            min_ms: self.min_ms,
            max_ms: self.max_ms,
            distribution: self.distribution@,
        }
    }
}

impl DeepView for ErrorCodeEntry {
    type V = ErrorCodeEntryView;

    open spec fn deep_view(&self) -> ErrorCodeEntryView {
        ErrorCodeEntryView {
            status: self.status,
            weight: self.weight,
            body: self.body.deep_view(),
            headers: self.headers.deep_view(),
        }
    }
}

impl ChaosConfig {
    /// What the configuration stands for.
    pub open spec fn model(self) -> ChaosConfigView
        decreases self,
    {
        ChaosConfigView {
            enabled: self.enabled,
            latency_ms: self.latency_ms,
            error_rate: self.error_rate,
            error_status: self.error_status,
            error_body: self.error_body@,
            latency_jitter: self.latency_jitter.deep_view(),
            error_codes: self.error_codes.deep_view(),
            endpoint_rules: Seq::new(
                self.endpoint_rules@.len(),
                |i: int|
                    if 0 <= i < self.endpoint_rules@.len() {
                        EndpointRuleView {
                            uri_pattern: self.endpoint_rules@[i].uri_pattern@,
                            config: self.endpoint_rules@[i].config.model(),
                        }
                    } else {
                        arbitrary()
                    },
            ),
            modes: self.modes.deep_view(),
            preset: self.preset.deep_view(),
            chaos_model: self.chaos_model,
            markov: self.markov,
        }
    }
}

impl DeepView for ChaosConfig {
    type V = ChaosConfigView;

    open spec fn deep_view(&self) -> ChaosConfigView {
        self.model()
    }
}

impl DeepView for EndpointRule {
    type V = EndpointRuleView;

    open spec fn deep_view(&self) -> EndpointRuleView {
        EndpointRuleView { uri_pattern: self.uri_pattern@, config: self.config.model() }
    }
}

impl Dup for LatencyJitter {
    fn dup(&self) -> (r: Self) {
        LatencyJitter {
            min_ms: self.min_ms,
            max_ms: self.max_ms,
            distribution: self.distribution.clone(),
        }
    }
}

impl Dup for ErrorCodeEntry {
    fn dup(&self) -> (r: Self) {
        ErrorCodeEntry {
            status: self.status,
            weight: self.weight,
            body: self.body.dup(),
            headers: self.headers.dup(),
        }
    }
}

impl Dup for ChaosConfig {
    #[verifier::loop_isolation(false)]
    fn dup(&self) -> (r: Self)
        decreases self,
    {
        let mut rules: Vec<EndpointRule> = Vec::new();
        let mut i: usize = 0;
        while i < self.endpoint_rules.len()
            invariant
                i <= self.endpoint_rules@.len(),
                rules@.len() == i,
                forall|j: int|
                    #![trigger rules@[j]]
                    0 <= j < i ==> rules@[j].uri_pattern@ == self.endpoint_rules@[j].uri_pattern@
                        && rules@[j].config.model() == self.endpoint_rules@[j].config.model(),
            decreases self.endpoint_rules@.len() - i,
        {
            let rule = &self.endpoint_rules[i];
            proof {
                assert(decreases_to!(*self => self.endpoint_rules));
                assert(decreases_to!(self.endpoint_rules@ => self.endpoint_rules@[i as int]));
                assert(decreases_to!(*rule => rule.config));
            }
            rules.push(
                EndpointRule { uri_pattern: rule.uri_pattern.clone(), config: rule.config.dup() },
            );
            i += 1;
        }
        let ghost rs = rules@;
        let r = ChaosConfig {
            enabled: self.enabled,
            latency_ms: self.latency_ms,
            error_rate: self.error_rate,
            error_status: self.error_status,
            error_body: self.error_body.clone(),
            latency_jitter: self.latency_jitter.dup(),
            error_codes: self.error_codes.dup(),
            endpoint_rules: rules,
            modes: self.modes.dup(),
            preset: self.preset.dup(),
            chaos_model: self.chaos_model,
            markov: self.markov,
        };
        proof {
            let a = r.model().endpoint_rules;
            let b = self.model().endpoint_rules;
            assert forall|j: int| 0 <= j < a.len() implies a[j] == b[j] by {
                assert(rs[j].uri_pattern@ == self.endpoint_rules@[j].uri_pattern@);
            }
            assert(a =~= b);
        }
        r
    }
}

/// The configuration that counts if nothing is set: no chaos.
pub open spec fn default_config() -> ChaosConfigView {
    ChaosConfigView {
        enabled: false,
        latency_ms: 0,
        error_rate: 0,
        error_status: 0,
        error_body: Seq::empty(),
        latency_jitter: None,
        error_codes: Seq::empty(),
        endpoint_rules: Seq::empty(),
        modes: Seq::empty(),
        preset: None,
        chaos_model: ChaosModel::Uniform,
        markov: None,
    }
}

impl Default for ChaosConfig {
    fn default() -> (r: Self)
        ensures
            r.deep_view() == default_config(),
    {
        let r = ChaosConfig {
            enabled: false,
            latency_ms: 0,
            error_rate: 0,
            error_status: 0,
            error_body: String::new(),
            latency_jitter: None,
            error_codes: Vec::new(),
            endpoint_rules: Vec::new(),
            modes: Vec::new(),
            preset: None,
            chaos_model: ChaosModel::Uniform,
            markov: None,
        };
        assert(r.error_body@ =~= Seq::empty());
        assert(r.deep_view().error_codes =~= Seq::empty());
        assert(r.deep_view().endpoint_rules =~= Seq::empty());
        assert(r.deep_view().modes =~= Seq::empty());
        r
    }
}

// ─── Glob matcher ────────────────────────────────────────────────────────────

/// The segments match the pattern: `*` stands for one segment, `**` for any number
/// of them, none included, anything else for itself.
pub open spec fn glob_segs(pattern: Seq<Seq<char>>, path: Seq<Seq<char>>) -> bool
    decreases pattern.len(), 0nat,
{
    if pattern.len() == 0 {
        path.len() == 0
    } else if path.len() == 0 {
        forall|i: int| 0 <= i < pattern.len() ==> #[trigger] pattern[i] == "**"@
    } else if pattern[0] == "**"@ {
        glob_some_rest(pattern.drop_first(), path)
    } else {
        (pattern[0] == "*"@ || pattern[0] == path[0]) && glob_segs(
            pattern.drop_first(),
            path.drop_first(),
        )
    }
}

/// The segments match the pattern, or do so without some of the first ones.
pub open spec fn glob_some_rest(pattern: Seq<Seq<char>>, path: Seq<Seq<char>>) -> bool
    decreases pattern.len(), path.len() + 1,
{
    glob_segs(pattern, path) || (path.len() > 0 && glob_some_rest(pattern, path.drop_first()))
}

proof fn lemma_glob_empty_rest(path: Seq<Seq<char>>)
    ensures
        glob_some_rest(Seq::empty(), path),
    decreases path.len(),
{
    if path.len() > 0 {
        lemma_glob_empty_rest(path.drop_first());
    } else {
        assert(glob_segs(Seq::empty(), path));
    }
}

/// The path matches the glob pattern, slashes at either end of both apart.
pub open spec fn globbed(pattern: Seq<char>, path: Seq<char>) -> bool {
    glob_segs(
        text::split(chars::without_slashes(pattern), '/'),
        text::split(chars::without_slashes(path), '/'),
    )
}

fn all_double(pattern: &[String]) -> (r: bool)
    ensures
        r == (forall|i: int|
            0 <= i < pattern@.len() ==> #[trigger] pattern.deep_view()[i] == "**"@),
{
    let ghost pv = pattern.deep_view();
    let mut i: usize = 0;
    while i < pattern.len()
        invariant
            i <= pattern@.len(),
            pv == pattern.deep_view(),
            forall|j: int| 0 <= j < i ==> #[trigger] pv[j] == "**"@,
        decreases pattern@.len() - i,
    {
        assert(pv[i as int] == pattern@[i as int]@);
        if !same_text(pattern[i].as_str(), "**") {
            return false;
        }
        i += 1;
    }
    true
}

/// Whether the segments match the pattern.
pub fn glob_match_segs(pattern: &[String], path: &[String]) -> (r: bool)
    ensures
        r == glob_segs(pattern.deep_view(), path.deep_view()),
    decreases pattern@.len(),
{
    let ghost pv = pattern.deep_view();
    let ghost sv = path.deep_view();
    let n = pattern.len();
    let m = path.len();
    if n == 0 {
        return m == 0;
    }
    if m == 0 {
        return all_double(pattern);
    }
    let double = same_text(pattern[0].as_str(), "**");
    let rest = slice_subrange(pattern, 1, n);
    assert(rest.deep_view() =~= pv.drop_first());
    if double {
        if n == 1 {
            proof {
                assert(pv.drop_first() =~= Seq::empty());
                lemma_glob_empty_rest(sv);
            }
            return true;
        }
        let ghost pr = pv.drop_first();
        let mut split: usize = 0;
        assert(sv.skip(0) =~= sv);
        while split < m
            invariant
                m == path@.len(),
                sv == path.deep_view(),
                pr == rest.deep_view(),
                rest@.len() < pattern@.len(),
                split <= m,
                glob_some_rest(pr, sv) == glob_some_rest(pr, sv.skip(split as int)),
                glob_segs(pattern.deep_view(), sv) == glob_some_rest(pr, sv),
            decreases m - split,
        {
            let tail = slice_subrange(path, split, m);
            assert(tail.deep_view() =~= sv.skip(split as int));
            if glob_match_segs(rest, tail) {
                return true;
            }
            assert(sv.skip(split as int).drop_first() =~= sv.skip(split + 1));
            split += 1;
        }
        let tail = slice_subrange(path, m, m);
        assert(tail.deep_view() =~= sv.skip(m as int));
        glob_match_segs(rest, tail)
    } else if same_text(pattern[0].as_str(), "*") || pattern[0] == path[0] {
        let tail = slice_subrange(path, 1, m);
        assert(tail.deep_view() =~= sv.drop_first());
        glob_match_segs(rest, tail)
    } else {
        false
    }
}

/// Whether the path matches the glob pattern, where `*` stands for one segment and
/// `**` for any number of them.
pub fn glob_match(pattern: &str, path: &str) -> (r: bool)
    ensures
        r == globbed(pattern@, path@),
{
    let p_segs = split_text(trim_slashes(pattern).as_str(), '/');
    let s_segs = split_text(trim_slashes(path).as_str(), '/');
    let p = p_segs.as_slice();
    let s = s_segs.as_slice();
    assert(p.deep_view() =~= p_segs.deep_view());
    assert(s.deep_view() =~= s_segs.deep_view());
    glob_match_segs(p, s)
}

/// A pattern without wildcards matches just its own segments.
pub proof fn law_glob_literal(pattern: Seq<Seq<char>>, path: Seq<Seq<char>>)
    requires
        forall|i: int|
            0 <= i < pattern.len() ==> #[trigger] pattern[i] != "*"@ && pattern[i] != "**"@,
    ensures
        glob_segs(pattern, path) == (pattern == path),
    decreases pattern.len(),
{
    if pattern.len() == 0 {
        if path.len() == 0 {
            assert(pattern =~= path);
        }
    } else if path.len() > 0 {
        assert(pattern[0] != "*"@ && pattern[0] != "**"@);
        let p = pattern.drop_first();
        let s = path.drop_first();
        assert forall|i: int| 0 <= i < p.len() implies #[trigger] p[i] != "*"@ && p[i] != "**"@ by {
            assert(p[i] == pattern[i + 1]);
        }
        law_glob_literal(p, s);
        if pattern[0] == path[0] && p == s {
            assert(pattern =~= seq![pattern[0]] + p);
            assert(path =~= seq![path[0]] + s);
        }
        if pattern == path {
            assert(p == s);
        }
    }
}

/// A final `**` matches whatever follows what stands before it, at any depth.
pub proof fn law_glob_final_double(prefix: Seq<Seq<char>>, rest: Seq<Seq<char>>)
    requires
        forall|i: int|
            0 <= i < prefix.len() ==> #[trigger] prefix[i] != "**"@,
    ensures
        glob_segs(prefix.push("**"@), prefix + rest),
    decreases prefix.len(),
{
    let pattern = prefix.push("**"@);
    let path = prefix + rest;
    if prefix.len() == 0 {
        assert(path =~= rest);
        assert(pattern.drop_first() =~= Seq::empty());
        lemma_glob_empty_rest(path);
    } else {
        let p = prefix.drop_first();
        assert forall|i: int| 0 <= i < p.len() implies #[trigger] p[i] != "**"@ by {
            assert(p[i] == prefix[i + 1]);
        }
        assert(pattern[0] == prefix[0]);
        assert(path[0] == prefix[0]);
        assert(pattern.drop_first() =~= p.push("**"@));
        assert(path.drop_first() =~= p + rest);
        law_glob_final_double(p, rest);
    }
}

/// A `**` can stand for no segment: what a pattern matches, it matches with one more
/// `**` before it or after it.
pub proof fn law_glob_double_can_be_empty(pattern: Seq<Seq<char>>, path: Seq<Seq<char>>)
    requires
        glob_segs(pattern, path),
    ensures
        glob_segs(seq!["**"@] + pattern, path),
        glob_segs(pattern.push("**"@), path),
{
    let before = seq!["**"@] + pattern;
    if path.len() > 0 {
        assert(before.drop_first() =~= pattern);
        assert(before[0] == "**"@);
        assert(glob_some_rest(pattern, path));
    } else {
        assert forall|i: int| 0 <= i < before.len() implies #[trigger] before[i] == "**"@ by {
            if i > 0 {
                assert(before[i] == pattern[i - 1]);
            }
        }
    }
    lemma_glob_push_double(pattern, path);
}

proof fn lemma_glob_push_double(pattern: Seq<Seq<char>>, path: Seq<Seq<char>>)
    ensures
        glob_segs(pattern, path) ==> glob_segs(pattern.push("**"@), path),
    decreases pattern.len(), path.len(),
{
    let after = pattern.push("**"@);
    if path.len() == 0 {
        if glob_segs(pattern, path) {
            assert forall|i: int| 0 <= i < after.len() implies #[trigger] after[i] == "**"@ by {
                if i < pattern.len() {
                    assert(after[i] == pattern[i]);
                }
            }
        }
    } else if pattern.len() > 0 {
        let rest = pattern.drop_first();
        assert(after.drop_first() =~= rest.push("**"@));
        assert(after[0] == pattern[0]);
        if pattern[0] == "**"@ {
            lemma_glob_some_push_double(rest, path);
        } else {
            lemma_glob_push_double(rest, path.drop_first());
        }
    }
}

proof fn lemma_glob_some_push_double(pattern: Seq<Seq<char>>, path: Seq<Seq<char>>)
    ensures
        glob_some_rest(pattern, path) ==> glob_some_rest(pattern.push("**"@), path),
    decreases pattern.len(), path.len() + 1,
{
    lemma_glob_push_double(pattern, path);
    if path.len() > 0 {
        lemma_glob_some_push_double(pattern, path.drop_first());
    }
}

/// A `*` in a pattern matches exactly one segment: without `**`, pattern and path
/// have the same number of segments.
pub proof fn law_glob_single_keeps_depth(pattern: Seq<Seq<char>>, path: Seq<Seq<char>>)
    requires
        forall|i: int| 0 <= i < pattern.len() ==> #[trigger] pattern[i] != "**"@,
        glob_segs(pattern, path),
    ensures
        pattern.len() == path.len(),
    decreases pattern.len(),
{
    if pattern.len() > 0 {
        assert(pattern[0] != "**"@);
        let p = pattern.drop_first();
        assert forall|i: int| 0 <= i < p.len() implies #[trigger] p[i] != "**"@ by {
            assert(p[i] == pattern[i + 1]);
        }
        law_glob_single_keeps_depth(p, path.drop_first());
    }
}

/// The first rule whose pattern matches the path of `path_query`.
pub open spec fn matching_rule(rules: Seq<EndpointRuleView>, path_query: Seq<char>) -> Option<
    EndpointRuleView,
>
    decreases rules.len(),
{
    if rules.len() == 0 {
        None
    } else if globbed(rules[0].uri_pattern, uri::path_of(path_query)) {
        Some(rules[0])
    } else {
        matching_rule(rules.drop_first(), path_query)
    }
}

/// The configuration of the first rule whose pattern matches the path of
/// `path_query`.
pub fn find_endpoint_rule<'a>(rules: &'a [EndpointRule], path_query: &str) -> (r: Option<
    &'a ChaosConfig,
>)
    ensures
        match r {
            Some(c) => matching_rule(rules.deep_view(), path_query@) is Some && matching_rule(
                rules.deep_view(),
                path_query@,
            )->0.config == c.deep_view(),
            None => matching_rule(rules.deep_view(), path_query@) is None,
        },
{
    let (path, _) = split_uri(path_query);
    let ghost all = rules.deep_view();
    let mut i: usize = 0;
    assert(all.skip(0) =~= all);
    while i < rules.len()
        invariant
            i <= rules@.len(),
            all == rules.deep_view(),
            path@ == uri::path_of(path_query@),
            matching_rule(all, path_query@) == matching_rule(all.skip(i as int), path_query@),
        decreases rules@.len() - i,
    {
        let rule = &rules[i];
        proof {
            let t = all.skip(i as int);
            assert(t[0] == rule.deep_view());
            assert(t.drop_first() =~= all.skip(i + 1));
        }
        if glob_match(rule.uri_pattern.as_str(), path.as_str()) {
            return Some(&rule.config);
        }
        i += 1;
    }
    None
}

/// The segment matches the one of the pattern: it is the same, or the pattern has `*`.
pub open spec fn glob_seg(pattern: Seq<char>, seg: Seq<char>) -> bool {
    pattern == "*"@ || pattern == seg
}

/// Without `**` a pattern matches segment by segment.
pub proof fn law_glob_by_segment(pattern: Seq<Seq<char>>, path: Seq<Seq<char>>)
    requires
        forall|i: int| 0 <= i < pattern.len() ==> #[trigger] pattern[i] != "**"@,
    ensures
        glob_segs(pattern, path) <==> pattern.len() == path.len() && forall|i: int|
            0 <= i < path.len() ==> glob_seg(pattern[i], #[trigger] path[i]),
    decreases pattern.len(),
{
    if pattern.len() > 0 && path.len() > 0 {
        let p = pattern.drop_first();
        let s = path.drop_first();
        assert(pattern[0] != "**"@);
        assert forall|i: int| 0 <= i < p.len() implies #[trigger] p[i] != "**"@ by {
            assert(p[i] == pattern[i + 1]);
        }
        law_glob_by_segment(p, s);
        if glob_segs(pattern, path) {
            assert forall|i: int| 0 <= i < path.len() implies glob_seg(
                pattern[i],
                #[trigger] path[i],
            ) by {
                if i > 0 {
                    assert(s[i - 1] == path[i]);
                }
            }
        }
        if pattern.len() == path.len() && forall|i: int|
            0 <= i < path.len() ==> glob_seg(pattern[i], #[trigger] path[i]) {
            assert(glob_seg(pattern[0], path[0]));
            assert forall|i: int| 0 <= i < s.len() implies glob_seg(p[i], #[trigger] s[i]) by {
                assert(s[i] == path[i + 1]);
            }
        }
    } else if pattern.len() > 0 {
        assert(pattern[0] != "**"@);
    }
}

/// A `**` stands for any number of segments: a pattern with one matches the paths that
/// begin as what stands before it and end as what stands after it.
pub proof fn law_glob_around_double(
    before: Seq<Seq<char>>,
    after: Seq<Seq<char>>,
    path: Seq<Seq<char>>,
)
    requires
        forall|i: int| 0 <= i < before.len() ==> #[trigger] before[i] != "**"@,
        forall|i: int| 0 <= i < after.len() ==> #[trigger] after[i] != "**"@,
    ensures
        glob_segs(before + seq!["**"@] + after, path) <==> {
            &&& path.len() >= before.len() + after.len()
            &&& forall|i: int|
                0 <= i < before.len() ==> glob_seg(#[trigger] before[i], path[i])
            &&& forall|i: int|
                0 <= i < after.len() ==> glob_seg(
                    #[trigger] after[i],
                    path[path.len() - after.len() + i],
                )
        },
    decreases before.len(),
{
    let double = seq!["**"@];
    let pattern = before + double + after;
    if before.len() == 0 {
        assert(pattern =~= double + after);
        assert(pattern[0] == "**"@);
        assert(pattern.drop_first() =~= after);
        if path.len() == 0 {
            if glob_segs(pattern, path) && after.len() > 0 {
                assert(pattern[1] == after[0]);
            }
        } else {
            lemma_glob_some_rest(after, path);
        }
    } else if path.len() == 0 {
        assert(pattern[0] == before[0]);
    } else {
        let b = before.drop_first();
        let s = path.drop_first();
        assert(pattern[0] == before[0]);
        assert(pattern.drop_first() =~= b + double + after);
        assert forall|i: int| 0 <= i < b.len() implies #[trigger] b[i] != "**"@ by {
            assert(b[i] == before[i + 1]);
        }
        law_glob_around_double(b, after, s);
        if glob_segs(pattern, path) {
            assert forall|i: int| 0 <= i < before.len() implies glob_seg(
                #[trigger] before[i],
                path[i],
            ) by {
                if i > 0 {
                    assert(glob_seg(b[i - 1], s[i - 1]));
                }
            }
            assert forall|i: int| 0 <= i < after.len() implies glob_seg(
                #[trigger] after[i],
                path[path.len() - after.len() + i],
            ) by {
                assert(glob_seg(after[i], s[s.len() - after.len() + i]));
            }
        }
        if path.len() >= before.len() + after.len() && (forall|i: int|
            0 <= i < before.len() ==> glob_seg(#[trigger] before[i], path[i])) && (forall|i: int|
            0 <= i < after.len() ==> glob_seg(
                #[trigger] after[i],
                path[path.len() - after.len() + i],
            )) {
            assert(glob_seg(before[0], path[0]));
            assert forall|i: int| 0 <= i < b.len() implies glob_seg(#[trigger] b[i], s[i]) by {
                assert(glob_seg(before[i + 1], path[i + 1]));
            }
            assert forall|i: int| 0 <= i < after.len() implies glob_seg(
                #[trigger] after[i],
                s[s.len() - after.len() + i],
            ) by {
                assert(glob_seg(after[i], path[path.len() - after.len() + i]));
            }
        }
    }
}

proof fn lemma_glob_some_rest(pattern: Seq<Seq<char>>, path: Seq<Seq<char>>)
    requires
        forall|i: int| 0 <= i < pattern.len() ==> #[trigger] pattern[i] != "**"@,
    ensures
        glob_some_rest(pattern, path) <==> path.len() >= pattern.len() && forall|i: int|
            0 <= i < pattern.len() ==> glob_seg(
                #[trigger] pattern[i],
                path[path.len() - pattern.len() + i],
            ),
    decreases path.len(),
{
    law_glob_by_segment(pattern, path);
    let fits = path.len() >= pattern.len() && forall|i: int|
        0 <= i < pattern.len() ==> glob_seg(
            #[trigger] pattern[i],
            path[path.len() - pattern.len() + i],
        );
    if path.len() == pattern.len() {
        if fits {
            assert forall|i: int| 0 <= i < path.len() implies glob_seg(
                pattern[i],
                #[trigger] path[i],
            ) by {
                assert(glob_seg(pattern[i], path[path.len() - pattern.len() + i]));
            }
        }
        if path.len() > 0 {
            lemma_glob_some_rest(pattern, path.drop_first());
        }
    } else if path.len() > 0 {
        let s = path.drop_first();
        lemma_glob_some_rest(pattern, s);
        if fits {
            assert forall|i: int| 0 <= i < pattern.len() implies glob_seg(
                #[trigger] pattern[i],
                s[s.len() - pattern.len() + i],
            ) by {
                assert(glob_seg(pattern[i], path[path.len() - pattern.len() + i]));
            }
        }
        if glob_some_rest(pattern, s) {
            assert forall|i: int| 0 <= i < pattern.len() implies glob_seg(
                #[trigger] pattern[i],
                path[path.len() - pattern.len() + i],
            ) by {
                assert(glob_seg(pattern[i], s[s.len() - pattern.len() + i]));
            }
        }
    }
}

/// A pattern and a path are matched by their segments, with or without a slash at their
/// start.
pub proof fn law_glob_of_texts(pattern: Seq<Seq<char>>, path: Seq<Seq<char>>)
    requires
        pattern.len() > 0,
        path.len() > 0,
        forall|i: int|
            0 <= i < pattern.len() ==> text::lacks_char(#[trigger] pattern[i], '/')
                && pattern[i].len() > 0,
        forall|i: int|
            0 <= i < path.len() ==> text::lacks_char(#[trigger] path[i], '/') && path[i].len() > 0,
    ensures
        ({
            let p = text::join(pattern, seq!['/']);
            let s = text::join(path, seq!['/']);
            &&& globbed(p, s) == glob_segs(pattern, path)
            &&& globbed(seq!['/'] + p, seq!['/'] + s) == glob_segs(pattern, path)
            &&& globbed(p, seq!['/'] + s) == glob_segs(pattern, path)
        }),
{
    let p = text::join(pattern, seq!['/']);
    let s = text::join(path, seq!['/']);
    lemma_joined_slashes(pattern);
    lemma_joined_slashes(path);
    lemma_without_slashes(p);
    lemma_without_slashes(s);
    text::lemma_split_join(pattern, '/');
    text::lemma_split_join(path, '/');
}

proof fn lemma_without_slashes(s: Seq<char>)
    requires
        s.len() > 0,
        s[0] != '/',
        s.last() != '/',
    ensures
        chars::without_slashes(s) == s,
        chars::without_slashes(seq!['/'] + s) == s,
{
    let p = |c: char| c == '/';
    let t = seq!['/'] + s;
    assert(t.drop_first() =~= s);
    reveal_with_fuel(chars::trim_start, 2);
    assert(chars::trim_start(t, p) == chars::trim_start(s, p));
    assert(chars::trim_start(s, p) == s);
    assert(chars::trim_end(s, p) == s);
}

/// The first rule whose pattern matches the path counts, whatever stands in the query; if
/// none matches, there is no rule for the request.
pub proof fn law_first_rule_counts(rules: Seq<EndpointRuleView>, path_query: Seq<char>, k: int)
    requires
        0 <= k <= rules.len(),
        forall|i: int|
            0 <= i < k ==> !globbed(
                (#[trigger] rules[i]).uri_pattern,
                uri::path_of(path_query),
            ),
        k < rules.len() ==> globbed(rules[k].uri_pattern, uri::path_of(path_query)),
    ensures
        k < rules.len() ==> matching_rule(rules, path_query) == Some(rules[k]),
        k == rules.len() ==> matching_rule(rules, path_query) is None,
    decreases rules.len(),
{
    if k > 0 {
        let rest = rules.drop_first();
        assert(!globbed(rules[0].uri_pattern, uri::path_of(path_query)));
        assert forall|i: int| 0 <= i < k - 1 implies !globbed(
            (#[trigger] rest[i]).uri_pattern,
            uri::path_of(path_query),
        ) by {
            assert(rest[i] == rules[i + 1]);
        }
        if k < rules.len() {
            assert(rest[k - 1] == rules[k]);
        }
        law_first_rule_counts(rest, path_query, k - 1);
    }
}

// ─── Latency ─────────────────────────────────────────────────────────────────

/// The lower end of the range.
pub open spec fn jitter_low(j: LatencyJitterView) -> u64 {
    if j.min_ms <= j.max_ms {
        j.min_ms
    } else {
        j.max_ms
    }
}

/// The upper end of the range.
pub open spec fn jitter_high(j: LatencyJitterView) -> u64 {
    if j.min_ms <= j.max_ms {
        j.max_ms
    } else {
        j.min_ms
    }
}

/// How far the latency can lie above the lower end of the range.
pub open spec fn jitter_span(cc: ChaosConfigView) -> u64 {
    match cc.latency_jitter {
        Some(j) => (jitter_high(j) - jitter_low(j)) as u64,
        None => 0,
    }
}

/// The latency to inject, given how far above the lower end it was drawn.
pub open spec fn latency_with(cc: ChaosConfigView, offset: u64) -> u64 {
    match cc.latency_jitter {
        Some(j) => if j.max_ms == 0 {
            0
        } else {
            (jitter_low(j) + offset) as u64
        },
        None => cc.latency_ms,
    }
}

/// How far the latency can lie above the lower end of the range.
pub fn latency_span(cc: &ChaosConfig) -> (r: u64)
    ensures
        r == jitter_span(cc.deep_view()),
{
    match &cc.latency_jitter {
        Some(j) => if j.min_ms <= j.max_ms {
            j.max_ms - j.min_ms
        } else {
            j.min_ms - j.max_ms
        },
        None => 0,
    }
}

/// The offset is drawn as the mean of two even draws rather than as one.
pub open spec fn two_draws(cc: ChaosConfigView) -> bool {
    cc.latency_jitter is Some && cc.latency_jitter->0.distribution == "normal"@
}

/// Two draws are made for the distribution `normal` alone.
pub proof fn law_normal_is_drawn_twice(cc: ChaosConfigView)
    ensures
        cc.latency_jitter is None ==> !two_draws(cc),
        cc.latency_jitter is Some ==> (two_draws(cc) <==> cc.latency_jitter->0.distribution
            == "normal"@),
{
}

/// Whether the offset is drawn as the mean of two even draws rather than as one.
pub fn draws_twice(cc: &ChaosConfig) -> (r: bool)
    ensures
        r == two_draws(cc.deep_view()),
{
    match &cc.latency_jitter {
        Some(j) => same_text(j.distribution.as_str(), "normal"),
        None => false,
    }
}

/// The latency to inject in milliseconds, given how far above the lower end of the
/// range it was drawn. Without a range it is the fixed latency.
pub fn compute_latency_ms(cc: &ChaosConfig, offset: u64) -> (r: u64)
    requires
        offset <= jitter_span(cc.deep_view()),
    ensures
        r == latency_with(cc.deep_view(), offset),
{
    match &cc.latency_jitter {
        Some(j) => {
            if j.max_ms == 0 {
                return 0;
            }
            let lo = if j.min_ms <= j.max_ms {
                j.min_ms
            } else {
                j.max_ms
            };
            lo + offset
        },
        None => cc.latency_ms,
    }
}

/// A drawn latency lies in the range, whichever way round its ends are given.
pub proof fn law_latency_in_range(cc: ChaosConfigView, offset: u64)
    requires
        offset <= jitter_span(cc),
        cc.latency_jitter is Some,
        cc.latency_jitter->0.max_ms != 0,
    ensures
        jitter_low(cc.latency_jitter->0) <= latency_with(cc, offset) <= jitter_high(
            cc.latency_jitter->0,
        ),
{
}

/// Without a range the latency is the fixed one. With a range that does not end at zero
/// it is the lower end and what was drawn above it, which reaches up to the upper end.
pub proof fn law_latency_is_as_configured(cc: ChaosConfigView, offset: u64)
    requires
        offset <= jitter_span(cc),
    ensures
        cc.latency_jitter is None ==> latency_with(cc, offset) == cc.latency_ms,
        cc.latency_jitter is Some && cc.latency_jitter->0.min_ms <= cc.latency_jitter->0.max_ms
            ==> jitter_span(cc) == cc.latency_jitter->0.max_ms - cc.latency_jitter->0.min_ms,
        cc.latency_jitter is Some && 0 < cc.latency_jitter->0.max_ms
            && cc.latency_jitter->0.min_ms <= cc.latency_jitter->0.max_ms ==> latency_with(
            cc,
            offset,
        ) == cc.latency_jitter->0.min_ms + offset,
        cc.latency_jitter is Some && cc.latency_jitter->0.max_ms < cc.latency_jitter->0.min_ms
            ==> jitter_span(cc) == cc.latency_jitter->0.min_ms - cc.latency_jitter->0.max_ms,
        cc.latency_jitter is Some && 0 < cc.latency_jitter->0.max_ms
            < cc.latency_jitter->0.min_ms ==> latency_with(cc, offset)
            == cc.latency_jitter->0.max_ms + offset,
        cc.latency_jitter is Some && cc.latency_jitter->0.max_ms == 0 ==> latency_with(cc, offset)
            == 0,
{
}

// ─── Error draw ──────────────────────────────────────────────────────────────

/// An error to answer with.
pub struct DrawnError {
    pub status: u16,
    pub body: String,
    pub headers: OrdMap<String, String>,
}

#[verifier::ext_equal]
pub struct DrawnErrorView {
    pub status: u16,
    pub body: Seq<char>,
    pub headers: Map<Seq<char>, Seq<char>>,
}

impl DeepView for DrawnError {
    type V = DrawnErrorView;

    open spec fn deep_view(&self) -> DrawnErrorView {
        DrawnErrorView {
            status: self.status,
            body: self.body@,
            headers: self.headers.deep_view(),
        }
    }
}

/// Some of the errors has a positive weight.
pub open spec fn some_weight(codes: Seq<ErrorCodeEntryView>) -> bool {
    exists|i: int| 0 <= i < codes.len() && positive((#[trigger] codes[i]).weight)
}

/// The first of the first `n` places that is reached, or `n`.
pub open spec fn first_reached(reached: Seq<bool>, n: nat) -> nat
    decreases n,
{
    if n == 0 || reached.len() == 0 {
        n
    } else if reached[0] {
        0
    } else {
        1 + first_reached(reached.drop_first(), (n - 1) as nat)
    }
}

/// The error that an entry of the dictionary gives.
pub open spec fn error_of(e: ErrorCodeEntryView) -> DrawnErrorView {
    DrawnErrorView {
        status: e.status,
        body: match e.body {
            Some(b) => b,
            None => Seq::empty(),
        },
        headers: match e.headers {
            Some(h) => h,
            None => Map::empty(),
        },
    }
}

/// The error to answer with. `reached` tells of each entry of the dictionary whether
/// the draw is no greater than the sum of the weights up to it: the first such
/// entry counts, or the last one if the draw reaches none. Without a positive
/// weight the single error counts, if there is one.
pub open spec fn drawn_error(cc: ChaosConfigView, reached: Seq<bool>) -> Option<DrawnErrorView> {
    if some_weight(cc.error_codes) {
        let n = cc.error_codes.len();
        let i = first_reached(reached, n);
        Some(
            error_of(
                cc.error_codes[if i < n {
                    i as int
                } else {
                    n - 1
                }],
            ),
        )
    } else if cc.error_status > 0 {
        Some(
            DrawnErrorView {
                status: cc.error_status,
                body: cc.error_body,
                headers: Map::empty(),
            },
        )
    } else {
        None
    }
}

fn error_from(e: &ErrorCodeEntry) -> (r: DrawnError)
    ensures
        r.deep_view() == error_of(e.deep_view()),
{
    let headers: OrdMap<String, String> = match &e.headers {
        Some(h) => h.dup(),
        None => {
            let empty: OrdMap<String, String> = OrdMap::new();
            assert(empty.deep_view() =~= Map::empty());
            empty
        },
    };
    DrawnError {
        status: e.status,
        body: match &e.body {
            Some(b) => b.clone(),
            None => String::new(),
        },
        headers,
    }
}

/// Whether some error of the dictionary has a positive weight.
pub fn has_weight(cc: &ChaosConfig) -> (r: bool)
    ensures
        r == some_weight(cc.deep_view().error_codes),
{
    let ghost codes = cc.deep_view().error_codes;
    let mut i: usize = 0;
    while i < cc.error_codes.len()
        invariant
            codes == cc.error_codes.deep_view(),
            i <= cc.error_codes@.len(),
            forall|j: int| 0 <= j < i ==> !positive((#[trigger] codes[j]).weight),
        decreases cc.error_codes@.len() - i,
    {
        if is_positive(cc.error_codes[i].weight) {
            assert(positive(codes[i as int].weight));
            return true;
        }
        i += 1;
    }
    false
}

fn reached_index(reached: &Vec<bool>, n: usize) -> (r: usize)
    ensures
        r == first_reached(reached@, n as nat),
        r <= n,
{
    let mut i: usize = 0;
    assert(reached@.skip(0) =~= reached@);
    while i < n && i < reached.len() && !reached[i]
        invariant
            i <= n,
            i <= reached@.len(),
            first_reached(reached@, n as nat) == i + first_reached(
                reached@.skip(i as int),
                (n - i) as nat,
            ),
        decreases n - i,
    {
        assert(reached@.skip(i as int)[0] == reached@[i as int]);
        assert(reached@.skip(i as int).drop_first() =~= reached@.skip(i + 1));
        i += 1;
    }
    let ghost t = reached@.skip(i as int);
    if i < n && i < reached.len() {
        assert(t[0] == reached@[i as int]);
        i
    } else {
        n
    }
}

/// The error to answer with, given which entries of the dictionary the draw reaches.
/// Nothing if no error is configured.
pub fn draw_error(cc: &ChaosConfig, reached: &Vec<bool>) -> (r: Option<DrawnError>)
    ensures
        r.deep_view() == drawn_error(cc.deep_view(), reached@),
{
    if has_weight(cc) {
        let n = cc.error_codes.len();
        let i = reached_index(reached, n);
        let k = if i < n {
            i
        } else {
            n - 1
        };
        assert(cc.deep_view().error_codes[k as int] == cc.error_codes@[k as int].deep_view());
        return Some(error_from(&cc.error_codes[k]));
    }
    if cc.error_status > 0 {
        let headers: OrdMap<String, String> = OrdMap::new();
        assert(headers.deep_view() =~= Map::empty());
        return Some(DrawnError { status: cc.error_status, body: cc.error_body.clone(), headers });
    }
    None
}

/// A drawn error is one of the configured ones, and some error is drawn unless none
/// is configured.
pub proof fn law_drawn_error_is_configured(cc: ChaosConfigView, reached: Seq<bool>)
    ensures
        match drawn_error(cc, reached) {
            Some(e) => (exists|i: int|
                0 <= i < cc.error_codes.len() && error_of(#[trigger] cc.error_codes[i]) == e)
                || (cc.error_status > 0 && e.status == cc.error_status && e.body
                == cc.error_body),
            None => !some_weight(cc.error_codes) && cc.error_status == 0,
        },
{
    if some_weight(cc.error_codes) {
        let n = cc.error_codes.len();
        let i = first_reached(reached, n);
        let k = if i < n {
            i as int
        } else {
            n - 1
        };
        assert(error_of(cc.error_codes[k]) == drawn_error(cc, reached)->0);
    }
}

/// The error is the entry of the dictionary: its status, its body, or none, and its
/// headers, or none.
pub open spec fn is_entry(e: DrawnErrorView, entry: ErrorCodeEntryView) -> bool {
    &&& e.status == entry.status
    &&& entry.body is Some ==> e.body == entry.body->0
    &&& entry.body is None ==> e.body.len() == 0
    &&& entry.headers is Some ==> e.headers == entry.headers->0
    &&& entry.headers is None ==> e.headers == Map::<Seq<char>, Seq<char>>::empty()
}

/// Of a dictionary with some positive weight the first entry that the draw reaches is
/// the error, or the last one if it reaches none.
pub proof fn law_first_reached_error_is_drawn(cc: ChaosConfigView, reached: Seq<bool>, k: int)
    requires
        0 <= k < cc.error_codes.len(),
        exists|i: int|
            0 <= i < cc.error_codes.len() && 0 < (#[trigger] cc.error_codes[i]).weight
                <= 0x7ff0_0000_0000_0000,
        reached.len() == cc.error_codes.len(),
        forall|i: int| 0 <= i < k ==> !#[trigger] reached[i],
        k < cc.error_codes.len() - 1 ==> reached[k],
    ensures
        drawn_error(cc, reached) is Some,
        is_entry(drawn_error(cc, reached)->0, cc.error_codes[k]),
{
    let j = choose|i: int|
        0 <= i < cc.error_codes.len() && 0 < (#[trigger] cc.error_codes[i]).weight
            <= 0x7ff0_0000_0000_0000;
    assert(positive(cc.error_codes[j].weight));
    lemma_first_reached(reached, cc.error_codes.len(), k);
}

proof fn lemma_first_reached(reached: Seq<bool>, n: nat, k: int)
    requires
        0 <= k < n,
        reached.len() == n,
        forall|i: int| 0 <= i < k ==> !#[trigger] reached[i],
        k < n - 1 ==> reached[k],
    ensures
        reached[k] ==> first_reached(reached, n) == k,
        !reached[k] ==> first_reached(reached, n) == n && k == n - 1,
    decreases n,
{
    let rest = reached.drop_first();
    if k > 0 {
        assert(!reached[0]);
        assert forall|i: int| 0 <= i < k - 1 implies !#[trigger] rest[i] by {
            assert(rest[i] == reached[i + 1]);
        }
        assert(rest[k - 1] == reached[k]);
        lemma_first_reached(rest, (n - 1) as nat, k - 1);
    } else if !reached[0] {
        assert(n == 1);
        assert(first_reached(rest, 0) == 0);
    }
}

/// Without a positive weight the single error is drawn: its status and its body, without
/// headers; and nothing if its status is zero.
pub proof fn law_single_error_is_drawn(cc: ChaosConfigView, reached: Seq<bool>)
    requires
        forall|i: int|
            0 <= i < cc.error_codes.len() ==> (#[trigger] cc.error_codes[i]).weight == 0
                || cc.error_codes[i].weight > 0x7ff0_0000_0000_0000,
    ensures
        cc.error_status == 0 ==> drawn_error(cc, reached) is None,
        cc.error_status > 0 ==> drawn_error(cc, reached) is Some && drawn_error(
            cc,
            reached,
        )->0.status == cc.error_status && drawn_error(cc, reached)->0.body == cc.error_body
            && drawn_error(cc, reached)->0.headers == Map::<Seq<char>, Seq<char>>::empty(),
{
    assert(!some_weight(cc.error_codes)) by {
        if some_weight(cc.error_codes) {
            let i = choose|i: int|
                0 <= i < cc.error_codes.len() && positive((#[trigger] cc.error_codes[i]).weight);
            assert(cc.error_codes[i].weight > 0);
        }
    }
}

// ─── Path for the event log ──────────────────────────────────────────────────

/// Groups of 8, 4, 4, 4 and 12 hexadecimal digits, joined by dashes.
pub open spec fn uuid(s: Seq<char>) -> bool {
    s.len() == 36 && forall|i: int|
        0 <= i < 36 ==> if i == 8 || i == 13 || i == 18 || i == 23 {
            #[trigger] s[i] == '-'
        } else {
            chars::is_hex(s[i])
        }
}

/// Five or more digits.
pub open spec fn long_numeric(s: Seq<char>) -> bool {
    s.len() >= 5 && forall|i: int| 0 <= i < s.len() ==> chars::is_digit(#[trigger] s[i])
}

/// A segment as it may be logged: `{id}` in place of an identifier.
pub open spec fn scrubbed_segment(s: Seq<char>) -> Seq<char> {
    if uuid(s) || long_numeric(s) {
        "{id}"@
    } else {
        s
    }
}

/// The segments that are not empty, as they may be logged.
pub open spec fn scrubbed_segments(segs: Seq<Seq<char>>) -> Seq<Seq<char>>
    decreases segs.len(),
{
    if segs.len() == 0 {
        Seq::empty()
    } else {
        let before = scrubbed_segments(segs.drop_last());
        if segs.last().len() == 0 {
            before
        } else {
            before.push(scrubbed_segment(segs.last()))
        }
    }
}

/// A path as it may be logged: without query and empty segments, with `{id}` in
/// place of identifiers. An empty path is `/`.
pub open spec fn scrubbed(path_query: Seq<char>) -> Seq<char> {
    let path = uri::path_of(path_query);
    let body = text::join(scrubbed_segments(text::split(path, '/')), seq!['/']);
    let out = if path.len() > 0 && path[0] == '/' {
        seq!['/'] + body
    } else {
        body
    };
    if out.len() == 0 {
        seq!['/']
    } else {
        out
    }
}

/// Whether `s` is a UUID: 8, 4, 4, 4 and 12 hexadecimal digits, joined by dashes.
pub fn is_uuid(s: &str) -> (r: bool)
    ensures
        r == uuid(s@),
{
    let cs = chars_of(s);
    if cs.len() != 36 {
        return false;
    }
    let mut i: usize = 0;
    while i < 36
        invariant
            cs@ == s@,
            cs@.len() == 36,
            i <= 36,
            forall|j: int|
                0 <= j < i ==> if j == 8 || j == 13 || j == 18 || j == 23 {
                    #[trigger] s@[j] == '-'
                } else {
                    chars::is_hex(s@[j])
                },
        decreases 36 - i,
    {
        let expect_dash = i == 8 || i == 13 || i == 18 || i == 23;
        if expect_dash {
            if cs[i] != '-' {
                assert(s@[i as int] != '-');
                return false;
            }
        } else if !hex(cs[i]) {
            assert(!chars::is_hex(s@[i as int]));
            return false;
        }
        i += 1;
    }
    true
}

/// Whether `s` is five or more digits.
pub fn is_long_numeric(s: &str) -> (r: bool)
    ensures
        r == long_numeric(s@),
{
    let cs = chars_of(s);
    if cs.len() < 5 {
        return false;
    }
    let mut i: usize = 0;
    while i < cs.len()
        invariant
            cs@ == s@,
            i <= cs@.len(),
            forall|j: int| 0 <= j < i ==> chars::is_digit(#[trigger] s@[j]),
        decreases cs@.len() - i,
    {
        if !digit(cs[i]) {
            assert(!chars::is_digit(s@[i as int]));
            return false;
        }
        i += 1;
    }
    true
}

/// The path of `path_query` as it may be logged: without query, with `{id}` in
/// place of UUIDs and of numbers of five or more digits.
pub fn scrub_path(path_query: &str) -> (r: String)
    ensures
        r@ == scrubbed(path_query@),
{
    let (path, _) = split_uri(path_query);
    let segs = split_text(path.as_str(), '/');
    let ghost ss = segs.deep_view();
    let mut kept: Vec<String> = Vec::new();
    let mut i: usize = 0;
    assert(ss.take(0) =~= Seq::empty());
    assert(kept.deep_view() =~= Seq::empty());
    while i < segs.len()
        invariant
            ss == segs.deep_view(),
            i <= segs@.len(),
            kept.deep_view() == scrubbed_segments(ss.take(i as int)),
        decreases segs@.len() - i,
    {
        let seg = segs[i].as_str();
        let ghost before = kept.deep_view();
        proof {
            let t = ss.take(i + 1);
            assert(t.drop_last() =~= ss.take(i as int));
            assert(t.last() == seg@);
        }
        if !seg.is_empty() {
            let shown = if is_uuid(seg) || is_long_numeric(seg) {
                "{id}".to_owned()
            } else {
                seg.to_owned()
            };
            kept.push(shown);
            assert(kept.deep_view() =~= before.push(scrubbed_segment(seg@)));
        }
        i += 1;
    }
    assert(ss.take(i as int) =~= ss);
    let body = join_text(&kept, "/");
    proof {
        reveal_strlit("/");
        assert("/"@ =~= seq!['/']);
    }
    let mut out = String::new();
    if crate::text::has_prefix(path.as_str(), "/") {
        out.push('/');
        assert(path@.subrange(0, 1)[0] == path@[0]);
    } else if !path.as_str().is_empty() {
        assert(path@[0] == '/' ==> path@.subrange(0, 1) =~= "/"@);
    }
    out.append(body.as_str());
    if out.as_str().is_empty() {
        out.push('/');
    }
    assert(out@ =~= scrubbed(path_query@));
    out
}

/// The logged path depends on the path alone: no part of the query gets into it.
pub proof fn law_scrub_drops_query(a: Seq<char>, b: Seq<char>)
    requires
        uri::path_of(a) == uri::path_of(b),
    ensures
        scrubbed(a) == scrubbed(b),
{
}

/// No two slashes follow each other.
pub open spec fn single_slashes(s: Seq<char>) -> bool {
    forall|i: int| 0 <= i < s.len() - 1 ==> !(#[trigger] s[i] == '/' && s[i + 1] == '/')
}

proof fn lemma_scrubbed_segments(segs: Seq<Seq<char>>)
    requires
        forall|i: int| 0 <= i < segs.len() ==> text::lacks_char(#[trigger] segs[i], '/'),
    ensures
        forall|i: int|
            0 <= i < scrubbed_segments(segs).len() ==> text::lacks_char(
                #[trigger] scrubbed_segments(segs)[i],
                '/',
            ) && scrubbed_segments(segs)[i].len() > 0 && !uuid(scrubbed_segments(segs)[i])
                && !long_numeric(scrubbed_segments(segs)[i]),
    decreases segs.len(),
{
    if segs.len() > 0 {
        let init = segs.drop_last();
        assert forall|i: int| 0 <= i < init.len() implies text::lacks_char(
            #[trigger] init[i],
            '/',
        ) by {
            assert(init[i] == segs[i]);
        }
        lemma_scrubbed_segments(init);
        let r = scrubbed_segments(segs);
        let before = scrubbed_segments(init);
        let last = segs[segs.len() - 1];
        assert(text::lacks_char(last, '/'));
        reveal_strlit("{id}");
        assert("{id}"@.len() == 4);
        assert forall|i: int| 0 <= i < r.len() implies text::lacks_char(#[trigger] r[i], '/')
            && r[i].len() > 0 && !uuid(r[i]) && !long_numeric(r[i]) by {
            if i < before.len() {
                assert(r[i] == before[i]);
            } else {
                assert(r[i] == scrubbed_segment(last));
                if r[i] == "{id}"@ {
                    assert forall|j: int| 0 <= j < r[i].len() implies #[trigger] r[i][j] != '/' by {
                        assert(j == 0 || j == 1 || j == 2 || j == 3);
                    }
                }
            }
        }
    }
}

proof fn lemma_joined_slashes(parts: Seq<Seq<char>>)
    requires
        forall|i: int|
            0 <= i < parts.len() ==> text::lacks_char(#[trigger] parts[i], '/')
                && parts[i].len() > 0,
    ensures
        single_slashes(text::join(parts, seq!['/'])),
        parts.len() > 0 ==> text::join(parts, seq!['/']).len() > 0 && text::join(
            parts,
            seq!['/'],
        )[0] != '/' && text::join(parts, seq!['/']).last() != '/',
    decreases parts.len(),
{
    if parts.len() == 1 {
        let s = parts[0];
        assert(text::lacks_char(s, '/'));
        assert(s[0] != '/');
        assert(s[s.len() - 1] != '/');
    } else if parts.len() > 1 {
        let init = parts.drop_last();
        let last = parts[parts.len() - 1];
        assert(text::lacks_char(last, '/') && last.len() > 0);
        assert forall|i: int| 0 <= i < init.len() implies text::lacks_char(#[trigger] init[i], '/')
            && init[i].len() > 0 by {
            assert(init[i] == parts[i]);
        }
        lemma_joined_slashes(init);
        let a = text::join(init, seq!['/']);
        let s = text::join(parts, seq!['/']);
        assert(s == a + seq!['/'] + last);
        assert(s[0] == a[0]);
        assert(s.last() == last[last.len() - 1]);
        assert forall|i: int| 0 <= i < s.len() - 1 implies !(#[trigger] s[i] == '/' && s[i + 1]
            == '/') by {
            if i < a.len() - 1 {
                assert(s[i] == a[i] && s[i + 1] == a[i + 1]);
            } else if i == a.len() - 1 {
                assert(s[i] == a.last());
            } else if i == a.len() {
                assert(s[i + 1] == last[0]);
            } else {
                assert(s[i] == last[i - a.len() - 1]);
            }
        }
    }
}

proof fn lemma_scrubbed_lack(segs: Seq<Seq<char>>, c: char)
    requires
        forall|i: int| 0 <= i < segs.len() ==> text::lacks_char(#[trigger] segs[i], c),
        text::lacks_char("{id}"@, c),
    ensures
        forall|i: int|
            0 <= i < scrubbed_segments(segs).len() ==> text::lacks_char(
                #[trigger] scrubbed_segments(segs)[i],
                c,
            ),
    decreases segs.len(),
{
    if segs.len() > 0 {
        let init = segs.drop_last();
        assert forall|i: int| 0 <= i < init.len() implies text::lacks_char(
            #[trigger] init[i],
            c,
        ) by {
            assert(init[i] == segs[i]);
        }
        lemma_scrubbed_lack(init, c);
        let r = scrubbed_segments(segs);
        let before = scrubbed_segments(init);
        assert(text::lacks_char(segs[segs.len() - 1], c));
        assert forall|i: int| 0 <= i < r.len() implies text::lacks_char(#[trigger] r[i], c) by {
            if i < before.len() {
                assert(r[i] == before[i]);
            }
        }
    }
}

/// Segments that are not empty and no identifiers stay as they are.
proof fn lemma_scrubbed_stay(segs: Seq<Seq<char>>)
    requires
        forall|i: int|
            0 <= i < segs.len() ==> (#[trigger] segs[i]).len() > 0 && !uuid(segs[i])
                && !long_numeric(segs[i]),
    ensures
        scrubbed_segments(segs) == segs,
    decreases segs.len(),
{
    if segs.len() > 0 {
        let init = segs.drop_last();
        assert forall|i: int| 0 <= i < init.len() implies (#[trigger] init[i]).len() > 0 && !uuid(
            init[i],
        ) && !long_numeric(init[i]) by {
            assert(init[i] == segs[i]);
        }
        lemma_scrubbed_stay(init);
        let last = segs[segs.len() - 1];
        assert(last.len() > 0 && !uuid(last) && !long_numeric(last));
        assert(init.push(last) =~= segs);
    } else {
        assert(segs =~= Seq::empty());
    }
}

/// An empty segment at the front counts for nothing.
proof fn lemma_scrubbed_front(segs: Seq<Seq<char>>)
    ensures
        scrubbed_segments(seq![Seq::<char>::empty()] + segs) == scrubbed_segments(segs),
    decreases segs.len(),
{
    let all = seq![Seq::<char>::empty()] + segs;
    if segs.len() > 0 {
        assert(all.drop_last() =~= seq![Seq::<char>::empty()] + segs.drop_last());
        assert(all.last() == segs.last());
        lemma_scrubbed_front(segs.drop_last());
    } else {
        assert(all.drop_last() =~= Seq::empty());
        assert(scrubbed_segments(all.drop_last()) =~= Seq::empty());
    }
}

/// The segments of a path with a slash at the front: an empty one, and those of the
/// rest.
proof fn lemma_split_front(s: Seq<char>)
    ensures
        text::split(seq!['/'] + s, '/') == seq![Seq::<char>::empty()] + text::split(s, '/'),
{
    let e = Seq::<char>::empty();
    let t = seq!['/'] + s;
    assert(e + seq!['/'] + s =~= t);
    text::lemma_find_char_after(e, '/', s);
    assert(t.take(0) =~= e);
    assert(t.skip(1) =~= s);
}

/// The path of `path_query` without empty segments and identifiers, and what is known
/// of it.
proof fn lemma_scrubbed_parts(path_query: Seq<char>) -> (parts: Seq<Seq<char>>)
    ensures
        parts == scrubbed_segments(text::split(uri::path_of(path_query), '/')),
        forall|i: int|
            0 <= i < parts.len() ==> text::lacks_char(#[trigger] parts[i], '/')
                && text::lacks_char(parts[i], '?') && parts[i].len() > 0 && !uuid(parts[i])
                && !long_numeric(parts[i]),
        text::lacks_char(text::join(parts, seq!['/']), '?'),
{
    let path = uri::path_of(path_query);
    let segs = text::split(path, '/');
    let parts = scrubbed_segments(segs);
    text::lemma_split_parts_lack(path, '/');
    lemma_scrubbed_segments(segs);
    text::lemma_find_char(path_query, '?');
    assert(text::lacks_char(path, '?'));
    text::lemma_split_keeps_lacking(path, '/', '?');
    reveal_strlit("{id}");
    assert(text::lacks_char("{id}"@, '?'));
    lemma_scrubbed_lack(segs, '?');
    text::lemma_join_keeps_lacking(parts, seq!['/'], '?');
    parts
}

/// The logged path is not empty, has no query and no empty segments, and no segment of
/// it is an identifier.
pub proof fn law_scrubbed_path(path_query: Seq<char>)
    ensures
        scrubbed(path_query).len() > 0,
        text::lacks_char(scrubbed(path_query), '?'),
        single_slashes(scrubbed(path_query)),
        forall|i: int|
            0 <= i < text::split(scrubbed(path_query), '/').len() ==> !uuid(
                #[trigger] text::split(scrubbed(path_query), '/')[i],
            ) && !long_numeric(text::split(scrubbed(path_query), '/')[i]),
{
    let path = uri::path_of(path_query);
    let parts = lemma_scrubbed_parts(path_query);
    lemma_joined_slashes(parts);
    let body = text::join(parts, seq!['/']);
    let s = scrubbed(path_query);
    let e = Seq::<char>::empty();
    if path.len() > 0 && path[0] == '/' {
        let t = seq!['/'] + body;
        assert forall|i: int| 0 <= i < t.len() - 1 implies !(#[trigger] t[i] == '/' && t[i + 1]
            == '/') by {
            assert(t[i + 1] == body[i]);
            if i > 0 {
                assert(t[i] == body[i - 1]);
            }
        }
    }
    if parts.len() > 0 {
        text::lemma_split_join(parts, '/');
    } else {
        text::lemma_find_char_lacking(e, '/');
        assert(text::split(e, '/') =~= seq![e]);
    }
    lemma_split_front(body);
    assert(s == body || s =~= seq!['/'] + body);
    assert(text::lacks_char(s, '?')) by {
        assert forall|i: int| 0 <= i < s.len() implies #[trigger] s[i] != '?' by {
            if s != body && i > 0 {
                assert(s[i] == body[i - 1]);
            }
        }
    }
    assert(!uuid(e) && !long_numeric(e));
    let segs = text::split(s, '/');
    let inner = text::split(body, '/');
    assert forall|i: int| 0 <= i < segs.len() implies !uuid(#[trigger] segs[i]) && !long_numeric(
        segs[i],
    ) by {
        if s == body {
            assert(segs[i] == inner[i]);
        } else if i > 0 {
            assert(segs[i] == inner[i - 1]);
        } else {
            assert(segs[0] == e);
        }
    }
}

/// A logged path is logged as it is.
pub proof fn law_scrub_idempotent(path_query: Seq<char>)
    ensures
        scrubbed(scrubbed(path_query)) == scrubbed(path_query),
{
    let parts = lemma_scrubbed_parts(path_query);
    lemma_joined_slashes(parts);
    lemma_scrubbed_stay(parts);
    let body = text::join(parts, seq!['/']);
    let s = scrubbed(path_query);
    let e = Seq::<char>::empty();
    assert(s == body || s =~= seq!['/'] + body);
    assert(text::lacks_char(s, '?')) by {
        assert forall|i: int| 0 <= i < s.len() implies #[trigger] s[i] != '?' by {
            if s != body && i > 0 {
                assert(s[i] == body[i - 1]);
            }
        }
    }
    text::lemma_find_char_lacking(s, '?');
    assert(uri::path_of(s) =~= s);
    if parts.len() > 0 {
        text::lemma_split_join(parts, '/');
    } else {
        text::lemma_find_char_lacking(e, '/');
        assert(text::split(e, '/') =~= seq![e]);
        assert(body =~= e);
        assert(seq![e].drop_last() =~= Seq::empty());
        assert(scrubbed_segments(seq![e]) =~= Seq::empty());
        assert(parts =~= Seq::empty());
    }
    lemma_split_front(body);
    lemma_scrubbed_front(text::split(body, '/'));
    assert(scrubbed_segments(text::split(s, '/')) == parts);
    assert(scrubbed(s) =~= s);
}

/// A segment is logged as `{id}` if it is a number of five or more digits, or groups of
/// 8, 4, 4, 4 and 12 hexadecimal digits joined by dashes; otherwise as it is.
pub proof fn law_segment_is_logged(s: Seq<char>)
    ensures
        s.len() >= 5 && (forall|i: int| 0 <= i < s.len() ==> '0' <= #[trigger] s[i] <= '9')
            ==> scrubbed_segment(s) == "{id}"@,
        s.len() == 36 && s[8] == '-' && s[13] == '-' && s[18] == '-' && s[23] == '-' && (forall|
            i: int,
        |
            0 <= i < 36 && i != 8 && i != 13 && i != 18 && i != 23 ==> ('0' <= #[trigger] s[i]
                <= '9') || ('a' <= s[i] <= 'f') || ('A' <= s[i] <= 'F')) ==> scrubbed_segment(s)
            == "{id}"@,
        s.len() < 5 ==> scrubbed_segment(s) == s,
        s.len() != 36 && (exists|i: int|
            0 <= i < s.len() && !('0' <= #[trigger] s[i] <= '9')) ==> scrubbed_segment(s) == s,
        (exists|i: int|
            0 <= i < s.len() && #[trigger] s[i] != '-' && !('0' <= s[i] <= '9') && !('a' <= s[i]
                <= 'f') && !('A' <= s[i] <= 'F')) ==> scrubbed_segment(s) == s,
{
    if s.len() == 36 && s[8] == '-' && s[13] == '-' && s[18] == '-' && s[23] == '-' && (forall|
        i: int,
    |
        0 <= i < 36 && i != 8 && i != 13 && i != 18 && i != 23 ==> ('0' <= #[trigger] s[i] <= '9')
            || ('a' <= s[i] <= 'f') || ('A' <= s[i] <= 'F')) {
        assert(uuid(s)) by {
            assert forall|i: int| 0 <= i < 36 implies if i == 8 || i == 13 || i == 18 || i == 23 {
                #[trigger] s[i] == '-'
            } else {
                chars::is_hex(s[i])
            } by {}
        }
    }
    if exists|i: int| 0 <= i < s.len() && !('0' <= #[trigger] s[i] <= '9') {
        let i = choose|i: int| 0 <= i < s.len() && !('0' <= #[trigger] s[i] <= '9');
        assert(!chars::is_digit(s[i]));
        assert(!long_numeric(s));
    }
    if exists|i: int|
        0 <= i < s.len() && #[trigger] s[i] != '-' && !('0' <= s[i] <= '9') && !('a' <= s[i]
            <= 'f') && !('A' <= s[i] <= 'F') {
        let i = choose|i: int|
            0 <= i < s.len() && #[trigger] s[i] != '-' && !('0' <= s[i] <= '9') && !('a' <= s[i]
                <= 'f') && !('A' <= s[i] <= 'F');
        assert(!chars::is_digit(s[i]) && !chars::is_hex(s[i]));
        assert(!long_numeric(s));
        assert(!uuid(s));
    }
}

/// The path of a request is logged segment by segment, without its query.
pub proof fn law_path_is_logged(segs: Seq<Seq<char>>, query: Seq<char>)
    requires
        segs.len() > 0,
        forall|i: int|
            0 <= i < segs.len() ==> (#[trigger] segs[i]).len() > 0 && text::lacks_char(segs[i], '/')
                && text::lacks_char(segs[i], '?'),
    ensures
        ({
            let path = seq!['/'] + text::join(segs, seq!['/']);
            let logged = seq!['/'] + text::join(
                segs.map_values(|s: Seq<char>| scrubbed_segment(s)),
                seq!['/'],
            );
            &&& scrubbed(path) == logged
            &&& scrubbed(path + seq!['?'] + query) == logged
        }),
{
    let body = text::join(segs, seq!['/']);
    let path = seq!['/'] + body;
    assert(text::lacks_char(path, '?')) by {
        text::lemma_join_lacks(segs, '/', '?');
        assert forall|i: int| 0 <= i < path.len() implies #[trigger] path[i] != '?' by {
            if i > 0 {
                assert(path[i] == body[i - 1]);
            }
        }
    }
    text::lemma_find_char_lacking(path, '?');
    assert(path.take(path.len() as int) =~= path);
    text::lemma_find_char_after(path, '?', query);
    let whole = path + seq!['?'] + query;
    assert(whole.take(path.len() as int) =~= path);
    lemma_split_front(body);
    text::lemma_split_join(segs, '/');
    let e = Seq::<char>::empty();
    let all = seq![e] + segs;
    lemma_scrub_after_empty(segs);
    let shown = segs.map_values(|s: Seq<char>| scrubbed_segment(s));
    assert(scrubbed_segments(all) == shown);
}

proof fn lemma_scrub_after_empty(segs: Seq<Seq<char>>)
    requires
        forall|i: int| 0 <= i < segs.len() ==> (#[trigger] segs[i]).len() > 0,
    ensures
        scrubbed_segments(seq![Seq::<char>::empty()] + segs) == segs.map_values(
            |s: Seq<char>| scrubbed_segment(s),
        ),
    decreases segs.len(),
{
    let e = Seq::<char>::empty();
    let all = seq![e] + segs;
    let shown = segs.map_values(|s: Seq<char>| scrubbed_segment(s));
    if segs.len() == 0 {
        assert(all =~= seq![e]);
        assert(all.drop_last() =~= Seq::<Seq<char>>::empty());
        assert(scrubbed_segments(all.drop_last()) =~= Seq::<Seq<char>>::empty());
        assert(scrubbed_segments(all) =~= shown);
    } else {
        let init = segs.drop_last();
        assert forall|i: int| 0 <= i < init.len() implies (#[trigger] init[i]).len() > 0 by {
            assert(init[i] == segs[i]);
        }
        lemma_scrub_after_empty(init);
        assert(all.drop_last() =~= seq![e] + init);
        assert(all.last() == segs[segs.len() - 1]);
        assert(scrubbed_segments(all) =~= shown);
    }
}

/// Without settings a configuration injects nothing, and a Markov model has healthy spells
/// of 30 seconds and degraded ones of five in the mean.
pub proof fn law_defaults()
    ensures
        !default_config().enabled,
        default_config().latency_ms == 0,
        default_config().error_rate == 0,
        default_config().modes.len() == 0,
        default_config().chaos_model == ChaosModel::Uniform,
        default_markov().mean_dwell_healthy_ms == 30_000,
        default_markov().mean_dwell_degraded_ms == 5_000,
{
}

} // verus!
