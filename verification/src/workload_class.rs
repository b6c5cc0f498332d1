//! Who sent a request: a human, a CI run, a coding agent, or nobody knows.
use crate::chars;
use crate::headers;
use crate::headers::RequestHeaders;
use crate::text;
use crate::text::has_text;
use crate::text::same_text;
use vstd::prelude::*;

verus! {

/// The class of the sender of a request.
#[derive(Clone, Copy, Debug, PartialEq, Eq, Hash, Structural)]
pub enum WorkloadClass {
    /// A browser, without any sign of CI or of an agent.
    Human,
    /// A CI runner.
    Ci,
    /// A coding agent.
    Agent,
    /// Anything else.
    Unknown,
}

/// The wire form of a class.
pub open spec fn class_text(c: WorkloadClass) -> Seq<char> {
    match c {
        WorkloadClass::Human => "human"@,
        WorkloadClass::Ci => "ci"@,
        WorkloadClass::Agent => "agent"@,
        WorkloadClass::Unknown => "unknown"@,
    }
}

/// The class with this wire form; `Unknown` for any other text.
pub open spec fn class_of(raw: Seq<char>) -> WorkloadClass {
    if raw == "human"@ {
        WorkloadClass::Human
    } else if raw == "ci"@ {
        WorkloadClass::Ci
    } else if raw == "agent"@ {
        WorkloadClass::Agent
    } else {
        WorkloadClass::Unknown
    }
}

impl WorkloadClass {
    /// The wire form.
    pub fn as_str(&self) -> (r: &'static str)
        ensures
            r@ == class_text(*self),
    {
        match self {
            WorkloadClass::Human => "human",
            WorkloadClass::Ci => "ci",
            WorkloadClass::Agent => "agent",
            WorkloadClass::Unknown => "unknown",
        }
    }

    /// The class with this wire form; `Unknown` for any other text.
    pub fn from_str_or_unknown(raw: &str) -> (r: Self)
        ensures
            r == class_of(raw@),
    {
        if same_text(raw, "human") {
            WorkloadClass::Human
        } else if same_text(raw, "ci") {
            WorkloadClass::Ci
        } else if same_text(raw, "agent") {
            WorkloadClass::Agent
        } else {
            WorkloadClass::Unknown
        }
    }
}

/// The wire form leads back to the class.
pub proof fn law_wire_form_round_trip(c: WorkloadClass)
    ensures
        class_of(class_text(c)) == c,
{
    reveal_strlit("human");
    reveal_strlit("ci");
    reveal_strlit("agent");
    reveal_strlit("unknown");
    assert("human"@.len() == 5 && "ci"@.len() == 2 && "agent"@.len() == 5 && "unknown"@.len() == 7);
    assert("human"@[0] == 'h');
    assert("agent"@[0] == 'a');
}

// ─── Signs ───────────────────────────────────────────────────────────────────

/// Parts of a user agent that only CI runners have.
pub open spec fn ci_user_agents() -> Seq<Seq<char>> {
    seq![
        "Bamboo"@,
        "BuildKite"@,
        "Buildkite"@,
        "CircleCI"@,
        "Drone"@,
        "Bitrise"@,
        "GitHub-Hookshot"@,
        "GitLab-Runner"@,
        "Jenkins"@,
        "TeamCity"@,
        "Travis"@,
    ]
}

/// Headers that only CI runs have.
pub open spec fn ci_marker_headers() -> Seq<Seq<char>> {
    seq!["x-ci-build-id"@, "gitlab-ci-build-id"@, "github-actions-job"@, "x-ci"@]
}

/// Parts of a user agent that only coding agents have.
pub open spec fn agent_user_agents() -> Seq<Seq<char>> {
    seq![
        "aider"@,
        "anthropic-ai/sdk"@,
        "cline"@,
        "continue"@,
        "copilot-cli"@,
        "cursor"@,
        "github-copilot"@,
        "langchain/"@,
        "llamaindex/"@,
        "OpenAI/"@,
        "replit-agent"@,
        "roo-code"@,
        "windsurf"@,
    ]
}

/// Parts of the user agent of a browser.
pub open spec fn browser_signatures() -> Seq<Seq<char>> {
    seq!["Chrome/"@, "Edge/"@, "Firefox/"@, "Mozilla/"@, "Safari/"@]
}

fn ci_user_agent_list() -> (r: Vec<&'static str>)
    ensures
        r.deep_view() == ci_user_agents(),
{
    let r = vec![
        "Bamboo",
        "BuildKite",
        "Buildkite",
        "CircleCI",
        "Drone",
        "Bitrise",
        "GitHub-Hookshot",
        "GitLab-Runner",
        "Jenkins",
        "TeamCity",
        "Travis",
    ];
    assert(r.deep_view() =~= ci_user_agents());
    r
}

fn ci_marker_header_list() -> (r: Vec<&'static str>)
    ensures
        r.deep_view() == ci_marker_headers(),
{
    let r = vec!["x-ci-build-id", "gitlab-ci-build-id", "github-actions-job", "x-ci"];
    assert(r.deep_view() =~= ci_marker_headers());
    r
}

fn agent_user_agent_list() -> (r: Vec<&'static str>)
    ensures
        r.deep_view() == agent_user_agents(),
{
    let r = vec![
        "aider",
        "anthropic-ai/sdk",
        "cline",
        "continue",
        "copilot-cli",
        "cursor",
        "github-copilot",
        "langchain/",
        "llamaindex/",
        "OpenAI/",
        "replit-agent",
        "roo-code",
        "windsurf",
    ];
    assert(r.deep_view() =~= agent_user_agents());
    r
}

fn browser_signature_list() -> (r: Vec<&'static str>)
    ensures
        r.deep_view() == browser_signatures(),
{
    let r = vec!["Chrome/", "Edge/", "Firefox/", "Mozilla/", "Safari/"];
    assert(r.deep_view() =~= browser_signatures());
    r
}

/// One of the needles, in lower case, stands in the text.
pub open spec fn contains_any(haystack: Seq<char>, needles: Seq<Seq<char>>) -> bool {
    exists|i: int|
        0 <= i < needles.len() && text::contains_text(
            haystack,
            chars::lowercase(#[trigger] needles[i]),
        )
}

/// One of the headers is there.
pub open spec fn any_header(
    hs: Seq<(Seq<char>, Option<Seq<char>>)>,
    names: Seq<Seq<char>>,
) -> bool {
    exists|i: int| 0 <= i < names.len() && headers::first_header(hs, #[trigger] names[i]) is Some
}

/// Whether one of the needles, in lower case, stands in the text, which is in lower
/// case.
pub fn matches_any_substring(haystack_lower: &str, needles: &Vec<&'static str>) -> (r: bool)
    ensures
        r == contains_any(haystack_lower@, needles.deep_view()),
{
    let ghost ns = needles.deep_view();
    let mut i: usize = 0;
    while i < needles.len()
        invariant
            i <= needles@.len(),
            ns == needles.deep_view(),
            forall|j: int|
                0 <= j < i ==> !text::contains_text(
                    haystack_lower@,
                    chars::lowercase(#[trigger] ns[j]),
                ),
        decreases needles@.len() - i,
    {
        let folded = needles[i].to_lowercase();
        assert(ns[i as int] == needles@[i as int]@);
        if has_text(haystack_lower, folded.as_str()) {
            return true;
        }
        i += 1;
    }
    false
}

fn has_any_header(hs: &RequestHeaders, names: &Vec<&'static str>) -> (r: bool)
    ensures
        r == any_header(hs.deep_view(), names.deep_view()),
{
    let ghost ns = names.deep_view();
    let mut i: usize = 0;
    while i < names.len()
        invariant
            i <= names@.len(),
            ns == names.deep_view(),
            forall|j: int|
                0 <= j < i ==> headers::first_header(hs.deep_view(), #[trigger] ns[j]) is None,
        decreases names@.len() - i,
    {
        assert(ns[i as int] == names@[i as int]@);
        if hs.contains(names[i]) {
            return true;
        }
        i += 1;
    }
    false
}

// ─── Inference ───────────────────────────────────────────────────────────────

/// The class of a request by its headers, its user agent and its user agent in lower
/// case. The first of CI, agent and human that has a sign counts.
pub open spec fn classified(
    hs: Seq<(Seq<char>, Option<Seq<char>>)>,
    ua: Seq<char>,
    ua_lower: Seq<char>,
) -> WorkloadClass {
    if any_header(hs, ci_marker_headers()) || contains_any(ua_lower, ci_user_agents()) {
        WorkloadClass::Ci
    } else if headers::header_is(hs, "x-gostly-workload-class"@, "agent"@) || contains_any(
        ua_lower,
        agent_user_agents(),
    ) || (ua.len() == 0 && headers::header_is(hs, "x-runtime"@, "nodejs"@)) {
        WorkloadClass::Agent
    } else if contains_any(ua_lower, browser_signatures()) {
        WorkloadClass::Human
    } else {
        WorkloadClass::Unknown
    }
}

/// The class of a request by its headers, its user agent and its user agent in lower
/// case.
pub fn classify(hs: &RequestHeaders, ua: &str, ua_lower: &str) -> (r: WorkloadClass)
    ensures
        r == classified(hs.deep_view(), ua@, ua_lower@),
{
    if has_any_header(hs, &ci_marker_header_list()) {
        return WorkloadClass::Ci;
    }
    if matches_any_substring(ua_lower, &ci_user_agent_list()) {
        return WorkloadClass::Ci;
    }
    if hs.value_is("x-gostly-workload-class", "agent") {
        return WorkloadClass::Agent;
    }
    if matches_any_substring(ua_lower, &agent_user_agent_list()) {
        return WorkloadClass::Agent;
    }
    if ua.is_empty() && hs.value_is("x-runtime", "nodejs") {
        return WorkloadClass::Agent;
    }
    if matches_any_substring(ua_lower, &browser_signature_list()) {
        return WorkloadClass::Human;
    }
    WorkloadClass::Unknown
}

/// The class of a request by its headers and its user agent, which is empty if the
/// request has none.
pub fn infer_workload_class(hs: &RequestHeaders, ua: &str) -> (r: WorkloadClass)
    ensures
        r == classified(hs.deep_view(), ua@, chars::lowercase(ua@)),
{
    let ua_lower = ua.to_lowercase();
    classify(hs, ua, ua_lower.as_str())
}

/// A CI marker header counts before any other sign.
pub proof fn law_ci_marker_first(
    hs: Seq<(Seq<char>, Option<Seq<char>>)>,
    ua: Seq<char>,
    ua_lower: Seq<char>,
)
    requires
        any_header(hs, ci_marker_headers()),
    ensures
        classified(hs, ua, ua_lower) == WorkloadClass::Ci,
{
}

/// The explicit override makes a request without a CI sign one of an agent.
pub proof fn law_override_makes_agent(
    hs: Seq<(Seq<char>, Option<Seq<char>>)>,
    ua: Seq<char>,
    ua_lower: Seq<char>,
)
    requires
        !any_header(hs, ci_marker_headers()),
        !contains_any(ua_lower, ci_user_agents()),
        headers::header_is(hs, "x-gostly-workload-class"@, "agent"@),
    ensures
        classified(hs, ua, ua_lower) == WorkloadClass::Agent,
{
}

/// A non-empty ASCII text does not stand in an empty one, in lower case either.
proof fn lemma_absent(needle: Seq<char>)
    requires
        needle.len() > 0,
        vstd::utf8::is_ascii_chars(needle),
    ensures
        !text::contains_text(Seq::<char>::empty(), chars::lowercase(needle)),
{
    let n = chars::lowercase(needle);
    assert(n.len() == needle.len());
    assert forall|i: int| !text::occurs_at(Seq::<char>::empty(), n, i) by {
    }
}

proof fn lemma_no_ci_agent()
    ensures
        !contains_any(Seq::<char>::empty(), ci_user_agents()),
{
    reveal_strlit("Bamboo");
    reveal_strlit("BuildKite");
    reveal_strlit("Buildkite");
    reveal_strlit("CircleCI");
    reveal_strlit("Drone");
    reveal_strlit("Bitrise");
    reveal_strlit("GitHub-Hookshot");
    reveal_strlit("GitLab-Runner");
    reveal_strlit("Jenkins");
    reveal_strlit("TeamCity");
    reveal_strlit("Travis");
    lemma_absent("Bamboo"@);
    lemma_absent("BuildKite"@);
    lemma_absent("Buildkite"@);
    lemma_absent("CircleCI"@);
    lemma_absent("Drone"@);
    lemma_absent("Bitrise"@);
    lemma_absent("GitHub-Hookshot"@);
    lemma_absent("GitLab-Runner"@);
    lemma_absent("Jenkins"@);
    lemma_absent("TeamCity"@);
    lemma_absent("Travis"@);
}

proof fn lemma_no_agent()
    ensures
        !contains_any(Seq::<char>::empty(), agent_user_agents()),
{
    reveal_strlit("aider");
    reveal_strlit("anthropic-ai/sdk");
    reveal_strlit("cline");
    reveal_strlit("continue");
    reveal_strlit("copilot-cli");
    reveal_strlit("cursor");
    reveal_strlit("github-copilot");
    reveal_strlit("langchain/");
    reveal_strlit("llamaindex/");
    reveal_strlit("OpenAI/");
    reveal_strlit("replit-agent");
    reveal_strlit("roo-code");
    reveal_strlit("windsurf");
    lemma_absent("aider"@);
    lemma_absent("anthropic-ai/sdk"@);
    lemma_absent("cline"@);
    lemma_absent("continue"@);
    lemma_absent("copilot-cli"@);
    lemma_absent("cursor"@);
    lemma_absent("github-copilot"@);
    lemma_absent("langchain/"@);
    lemma_absent("llamaindex/"@);
    lemma_absent("OpenAI/"@);
    lemma_absent("replit-agent"@);
    lemma_absent("roo-code"@);
    lemma_absent("windsurf"@);
}

proof fn lemma_no_browser()
    ensures
        !contains_any(Seq::<char>::empty(), browser_signatures()),
{
    reveal_strlit("Chrome/");
    reveal_strlit("Edge/");
    reveal_strlit("Firefox/");
    reveal_strlit("Mozilla/");
    reveal_strlit("Safari/");
    lemma_absent("Chrome/"@);
    lemma_absent("Edge/"@);
    lemma_absent("Firefox/"@);
    lemma_absent("Mozilla/"@);
    lemma_absent("Safari/"@);
}

/// A request without headers and without a user agent is of an unknown class.
pub proof fn law_nothing_known()
    ensures
        classified(
            Seq::empty(),
            Seq::empty(),
            chars::lowercase(Seq::empty()),
        ) == WorkloadClass::Unknown,
{
    lemma_no_ci_agent();
    lemma_no_agent();
    lemma_no_browser();
    assert(chars::lowercase(Seq::<char>::empty()) =~= Seq::<char>::empty());
}

// ─── Laws of the signs ───────────────────────────────────────────────────────

/// The user agent, in lower case, is that of a CI runner.
pub open spec fn ci_agent(ua_lower: Seq<char>) -> bool {
    ||| text::contains_text(ua_lower, "bamboo"@)
    ||| text::contains_text(ua_lower, "buildkite"@)
    ||| text::contains_text(ua_lower, "circleci"@)
    ||| text::contains_text(ua_lower, "drone"@)
    ||| text::contains_text(ua_lower, "bitrise"@)
    ||| text::contains_text(ua_lower, "github-hookshot"@)
    ||| text::contains_text(ua_lower, "gitlab-runner"@)
    ||| text::contains_text(ua_lower, "jenkins"@)
    ||| text::contains_text(ua_lower, "teamcity"@)
    ||| text::contains_text(ua_lower, "travis"@)
}

/// The user agent, in lower case, is that of a coding agent.
pub open spec fn coding_agent(ua_lower: Seq<char>) -> bool {
    ||| text::contains_text(ua_lower, "aider"@)
    ||| text::contains_text(ua_lower, "anthropic-ai/sdk"@)
    ||| text::contains_text(ua_lower, "cline"@)
    ||| text::contains_text(ua_lower, "continue"@)
    ||| text::contains_text(ua_lower, "copilot-cli"@)
    ||| text::contains_text(ua_lower, "cursor"@)
    ||| text::contains_text(ua_lower, "github-copilot"@)
    ||| text::contains_text(ua_lower, "langchain/"@)
    ||| text::contains_text(ua_lower, "llamaindex/"@)
    ||| text::contains_text(ua_lower, "openai/"@)
    ||| text::contains_text(ua_lower, "replit-agent"@)
    ||| text::contains_text(ua_lower, "roo-code"@)
    ||| text::contains_text(ua_lower, "windsurf"@)
}

/// The user agent, in lower case, is that of a browser.
pub open spec fn browser_agent(ua_lower: Seq<char>) -> bool {
    ||| text::contains_text(ua_lower, "chrome/"@)
    ||| text::contains_text(ua_lower, "edge/"@)
    ||| text::contains_text(ua_lower, "firefox/"@)
    ||| text::contains_text(ua_lower, "mozilla/"@)
    ||| text::contains_text(ua_lower, "safari/"@)
}

/// The request has this header.
pub open spec fn has_header(hs: Seq<(Seq<char>, Option<Seq<char>>)>, name: Seq<char>) -> bool {
    exists|i: int| 0 <= i < hs.len() && (#[trigger] hs[i]).0 == name
}

/// The request has a header that only CI runs have.
pub open spec fn ci_header(hs: Seq<(Seq<char>, Option<Seq<char>>)>) -> bool {
    ||| has_header(hs, "x-ci-build-id"@)
    ||| has_header(hs, "gitlab-ci-build-id"@)
    ||| has_header(hs, "github-actions-job"@)
    ||| has_header(hs, "x-ci"@)
}

proof fn lemma_lowered(s: Seq<char>, low: Seq<char>)
    requires
        s.len() == low.len(),
        forall|i: int| 0 <= i < s.len() ==> #[trigger] s[i] <= '\u{7f}',
        forall|i: int| 0 <= i < s.len() ==> low[i] == chars::ascii_lower_char(#[trigger] s[i]),
    ensures
        chars::lowercase(s) == low,
{
    assert(vstd::utf8::is_ascii_chars(s));
    assert(chars::ascii_lower(s) =~= low);
}

proof fn lemma_ci_agent(ua_lower: Seq<char>)
    ensures
        contains_any(ua_lower, ci_user_agents()) == ci_agent(ua_lower),
{
    let ns = ci_user_agents();
    reveal_strlit("Bamboo");
    reveal_strlit("BuildKite");
    reveal_strlit("Buildkite");
    reveal_strlit("CircleCI");
    reveal_strlit("Drone");
    reveal_strlit("Bitrise");
    reveal_strlit("GitHub-Hookshot");
    reveal_strlit("GitLab-Runner");
    reveal_strlit("Jenkins");
    reveal_strlit("TeamCity");
    reveal_strlit("Travis");
    reveal_strlit("bamboo");
    reveal_strlit("buildkite");
    reveal_strlit("circleci");
    reveal_strlit("drone");
    reveal_strlit("bitrise");
    reveal_strlit("github-hookshot");
    reveal_strlit("gitlab-runner");
    reveal_strlit("jenkins");
    reveal_strlit("teamcity");
    reveal_strlit("travis");
    lemma_lowered("Bamboo"@, "bamboo"@);
    assert(ns[0] == "Bamboo"@);
    lemma_lowered("BuildKite"@, "buildkite"@);
    assert(ns[1] == "BuildKite"@);
    lemma_lowered("Buildkite"@, "buildkite"@);
    assert(ns[2] == "Buildkite"@);
    lemma_lowered("CircleCI"@, "circleci"@);
    assert(ns[3] == "CircleCI"@);
    lemma_lowered("Drone"@, "drone"@);
    assert(ns[4] == "Drone"@);
    lemma_lowered("Bitrise"@, "bitrise"@);
    assert(ns[5] == "Bitrise"@);
    lemma_lowered("GitHub-Hookshot"@, "github-hookshot"@);
    assert(ns[6] == "GitHub-Hookshot"@);
    lemma_lowered("GitLab-Runner"@, "gitlab-runner"@);
    assert(ns[7] == "GitLab-Runner"@);
    lemma_lowered("Jenkins"@, "jenkins"@);
    assert(ns[8] == "Jenkins"@);
    lemma_lowered("TeamCity"@, "teamcity"@);
    assert(ns[9] == "TeamCity"@);
    lemma_lowered("Travis"@, "travis"@);
    assert(ns[10] == "Travis"@);
}

proof fn lemma_coding_agent(ua_lower: Seq<char>)
    ensures
        contains_any(ua_lower, agent_user_agents()) == coding_agent(ua_lower),
{
    let ns = agent_user_agents();
    reveal_strlit("aider");
    reveal_strlit("anthropic-ai/sdk");
    reveal_strlit("cline");
    reveal_strlit("continue");
    reveal_strlit("copilot-cli");
    reveal_strlit("cursor");
    reveal_strlit("github-copilot");
    reveal_strlit("langchain/");
    reveal_strlit("llamaindex/");
    reveal_strlit("OpenAI/");
    reveal_strlit("replit-agent");
    reveal_strlit("roo-code");
    reveal_strlit("windsurf");
    reveal_strlit("openai/");
    lemma_lowered("aider"@, "aider"@);
    assert(ns[0] == "aider"@);
    lemma_lowered("anthropic-ai/sdk"@, "anthropic-ai/sdk"@);
    assert(ns[1] == "anthropic-ai/sdk"@);
    lemma_lowered("cline"@, "cline"@);
    assert(ns[2] == "cline"@);
    lemma_lowered("continue"@, "continue"@);
    assert(ns[3] == "continue"@);
    lemma_lowered("copilot-cli"@, "copilot-cli"@);
    assert(ns[4] == "copilot-cli"@);
    lemma_lowered("cursor"@, "cursor"@);
    assert(ns[5] == "cursor"@);
    lemma_lowered("github-copilot"@, "github-copilot"@);
    assert(ns[6] == "github-copilot"@);
    lemma_lowered("langchain/"@, "langchain/"@);
    assert(ns[7] == "langchain/"@);
    lemma_lowered("llamaindex/"@, "llamaindex/"@);
    assert(ns[8] == "llamaindex/"@);
    lemma_lowered("OpenAI/"@, "openai/"@);
    assert(ns[9] == "OpenAI/"@);
    lemma_lowered("replit-agent"@, "replit-agent"@);
    assert(ns[10] == "replit-agent"@);
    lemma_lowered("roo-code"@, "roo-code"@);
    assert(ns[11] == "roo-code"@);
    lemma_lowered("windsurf"@, "windsurf"@);
    assert(ns[12] == "windsurf"@);
}

proof fn lemma_browser_agent(ua_lower: Seq<char>)
    ensures
        contains_any(ua_lower, browser_signatures()) == browser_agent(ua_lower),
{
    let ns = browser_signatures();
    reveal_strlit("Chrome/");
    reveal_strlit("Edge/");
    reveal_strlit("Firefox/");
    reveal_strlit("Mozilla/");
    reveal_strlit("Safari/");
    reveal_strlit("chrome/");
    reveal_strlit("edge/");
    reveal_strlit("firefox/");
    reveal_strlit("mozilla/");
    reveal_strlit("safari/");
    lemma_lowered("Chrome/"@, "chrome/"@);
    assert(ns[0] == "Chrome/"@);
    lemma_lowered("Edge/"@, "edge/"@);
    assert(ns[1] == "Edge/"@);
    lemma_lowered("Firefox/"@, "firefox/"@);
    assert(ns[2] == "Firefox/"@);
    lemma_lowered("Mozilla/"@, "mozilla/"@);
    assert(ns[3] == "Mozilla/"@);
    lemma_lowered("Safari/"@, "safari/"@);
    assert(ns[4] == "Safari/"@);
}

proof fn lemma_has_header(hs: Seq<(Seq<char>, Option<Seq<char>>)>, name: Seq<char>)
    ensures
        (headers::first_header(hs, name) is Some) == has_header(hs, name),
    decreases hs.len(),
{
    if hs.len() > 0 {
        let rest = hs.drop_first();
        lemma_has_header(rest, name);
        if has_header(rest, name) {
            let i = choose|i: int| 0 <= i < rest.len() && (#[trigger] rest[i]).0 == name;
            assert(hs[i + 1].0 == name);
        }
        if has_header(hs, name) && hs[0].0 != name {
            let i = choose|i: int| 0 <= i < hs.len() && (#[trigger] hs[i]).0 == name;
            assert(rest[i - 1].0 == name);
        }
    }
}

proof fn lemma_ci_header(hs: Seq<(Seq<char>, Option<Seq<char>>)>)
    ensures
        any_header(hs, ci_marker_headers()) == ci_header(hs),
{
    let ns = ci_marker_headers();
    lemma_has_header(hs, "x-ci-build-id"@);
    lemma_has_header(hs, "gitlab-ci-build-id"@);
    lemma_has_header(hs, "github-actions-job"@);
    lemma_has_header(hs, "x-ci"@);
    assert(ns[0] == "x-ci-build-id"@ && ns[1] == "gitlab-ci-build-id"@ && ns[2]
        == "github-actions-job"@ && ns[3] == "x-ci"@);
}

/// The class of a sender by its signs, the first that holds: a header or a user agent of
/// a CI run, the header `x-gostly-workload-class: agent`, the user agent of a coding agent
/// or no user agent with `x-runtime: nodejs`, the user agent of a browser; else unknown.
pub proof fn law_class_by_first_sign(
    hs: Seq<(Seq<char>, Option<Seq<char>>)>,
    ua: Seq<char>,
    ua_lower: Seq<char>,
)
    ensures
        ({
            let agent = headers::header_is(hs, "x-gostly-workload-class"@, "agent"@)
                || coding_agent(ua_lower) || (ua.len() == 0 && headers::header_is(
                hs,
                "x-runtime"@,
                "nodejs"@,
            ));
            let ci = ci_header(hs) || ci_agent(ua_lower);
            let c = classified(hs, ua, ua_lower);
            &&& ci ==> c == WorkloadClass::Ci
            &&& !ci && agent ==> c == WorkloadClass::Agent
            &&& !ci && !agent && browser_agent(ua_lower) ==> c == WorkloadClass::Human
            &&& !ci && !agent && !browser_agent(ua_lower) ==> c == WorkloadClass::Unknown
        }),
{
    lemma_ci_header(hs);
    lemma_ci_agent(ua_lower);
    lemma_coding_agent(ua_lower);
    lemma_browser_agent(ua_lower);
}

/// The wire forms of the classes; any other text is of none of them.
pub proof fn law_class_names(raw: Seq<char>)
    ensures
        class_text(WorkloadClass::Human) == "human"@,
        class_text(WorkloadClass::Ci) == "ci"@,
        class_text(WorkloadClass::Agent) == "agent"@,
        class_text(WorkloadClass::Unknown) == "unknown"@,
        raw != "human"@ && raw != "ci"@ && raw != "agent"@ ==> class_of(raw)
            == WorkloadClass::Unknown,
{
}

} // verus!
