//! The command line and the settings: what arguments, variables and replies mean.
use crate::chars;
use crate::chars::eq_ignoring_case;
use crate::chars::trim;
use crate::chars::trim_end_slashes;
use crate::files;
use crate::files::poll_interval_ms;
use crate::files::setting;
use crate::files::ReloadStrategy;
use crate::numbers;
use crate::numbers::decimal_text;
use crate::numbers::parse_i32;
use crate::numbers::signed_decimal_text;
use crate::ordmap::OrdMap;
use crate::recording;
use crate::recording::redaction_list;
use crate::text;
use crate::text::lines_of;
use crate::text::same_text;
use crate::types;
use crate::types::Mode;
use vstd::prelude::*;
use vstd::string::StringExecFns;

verus! {

// ─── Version ─────────────────────────────────────────────────────────────────

/// The version.
pub const VERSION_STR: &'static str = "v0.3.0";

/// The edition.
pub const BUILD_FLAVOUR: &'static str = "oss";

/// The version.
pub fn const_format_version() -> (r: &'static str)
    ensures
        r@ == VERSION_STR@,
{
    VERSION_STR
}

/// The version with the commit that it was built from, `dev` if that is not known, and
/// the edition.
pub fn version_with_metadata(commit: Option<&str>) -> (r: String)
    ensures
        r@ == VERSION_STR@ + " (commit "@ + (match commit.deep_view() {
            Some(c) => c,
            None => "dev"@,
        }) + ", "@ + BUILD_FLAVOUR@ + ")"@,
{
    let mut s = const_format_version().to_owned();
    s.append(" (commit ");
    s.append(
        match commit {
            Some(c) => c,
            None => "dev",
        },
    );
    s.append(", ");
    s.append(BUILD_FLAVOUR);
    s.append(")");
    s
}

// ─── Arguments ───────────────────────────────────────────────────────────────

/// A mode that can be chosen on the command line.
#[derive(Clone, Copy, Debug, PartialEq, Eq, Structural)]
pub enum ModeArg {
    Learn,
    Mock,
    Passthrough,
}

/// The label of a mode on the wire.
pub open spec fn mode_arg_label(mode: ModeArg) -> Seq<char> {
    match mode {
        ModeArg::Learn => "LEARN"@,
        ModeArg::Mock => "MOCK"@,
        ModeArg::Passthrough => "PASSTHROUGH"@,
    }
}

impl ModeArg {
    /// The label of the mode on the wire.
    pub fn as_str(self) -> (r: &'static str)
        ensures
            r@ == mode_arg_label(self),
    {
        match self {
            ModeArg::Learn => "LEARN",
            ModeArg::Mock => "MOCK",
            ModeArg::Passthrough => "PASSTHROUGH",
        }
    }
}

/// A format of exported libraries.
#[derive(Clone, Copy, Debug, PartialEq, Eq, Structural)]
pub enum ExportFormat {
    Openapi,
    Postman,
    Har,
}

impl ExportFormat {
    /// The name of the format.
    pub fn as_str(self) -> (r: &'static str)
        ensures
            r@ == (match self {
                ExportFormat::Openapi => "openapi"@,
                ExportFormat::Postman => "postman"@,
                ExportFormat::Har => "har"@,
            }),
    {
        match self {
            ExportFormat::Openapi => "openapi",
            ExportFormat::Postman => "postman",
            ExportFormat::Har => "har",
        }
    }
}

/// The arguments of `start`.
pub struct StartArgs {
    pub upstream: Option<String>,
    pub port: u16,
    pub data_dir: String,
    pub mode: ModeArg,
}

impl Default for StartArgs {
    fn default() -> (r: Self)
        ensures
            r.upstream is None,
            r.port == 8080,
            r.data_dir@ == "./data"@,
            r.mode == ModeArg::Learn,
    {
        StartArgs {
            upstream: None,
            port: 8080,
            data_dir: "./data".to_owned(),
            mode: ModeArg::Learn,
        }
    }
}

/// The variables that the arguments of `start` set.
pub open spec fn start_variables(
    upstream: Option<Seq<char>>,
    port: u16,
    data_dir: Seq<char>,
    mode: ModeArg,
) -> Seq<(Seq<char>, Seq<char>)> {
    let data = chars::without_end_slashes(data_dir);
    (match upstream {
        Some(u) => seq![("BACKEND_URL"@, u)],
        None => Seq::empty(),
    }) + seq![
        ("PROXY_PORT"@, numbers::decimal(port as nat)),
        ("MOCK_DIR"@, data + "/mocks"@),
        ("SEQUENCE_FILE_PATH"@, data + "/sequences.jsonl"@),
        ("MODE_FILE_PATH"@, data + "/mode.txt"@),
        ("TRAFFIC_LOG_DIR"@, data + "/traffic"@),
        ("INITIAL_MODE"@, mode_arg_label(mode)),
    ]
}

fn concat(a: &str, b: &str) -> (r: String)
    ensures
        r@ == a@ + b@,
{
    let mut s = a.to_owned();
    s.append(b);
    s
}

/// The variables that the arguments of `start` set, in order.
pub fn apply_start_args_to_env(args: &StartArgs) -> (r: Vec<(String, String)>)
    ensures
        r.deep_view() == start_variables(
            args.upstream.deep_view(),
            args.port,
            args.data_dir@,
            args.mode,
        ),
{
    let mut out: Vec<(String, String)> = Vec::new();
    if let Some(u) = &args.upstream {
        out.push(("BACKEND_URL".to_owned(), u.clone()));
    }
    let data = trim_end_slashes(args.data_dir.as_str());
    out.push(("PROXY_PORT".to_owned(), decimal_text(args.port as u64)));
    out.push(("MOCK_DIR".to_owned(), concat(data.as_str(), "/mocks")));
    out.push(("SEQUENCE_FILE_PATH".to_owned(), concat(data.as_str(), "/sequences.jsonl")));
    out.push(("MODE_FILE_PATH".to_owned(), concat(data.as_str(), "/mode.txt")));
    out.push(("TRAFFIC_LOG_DIR".to_owned(), concat(data.as_str(), "/traffic")));
    out.push(("INITIAL_MODE".to_owned(), args.mode.as_str().to_owned()));
    assert(out.deep_view() =~= start_variables(
        args.upstream.deep_view(),
        args.port,
        args.data_dir@,
        args.mode,
    ));
    out
}

// ─── Settings ────────────────────────────────────────────────────────────────

/// The settings of the proxy.
pub struct Settings {
    pub json_logs: bool,
    pub log_level: String,
    pub backend_url: String,
    pub port: u16,
    pub mock_dir: String,
    pub sequence_file_path: String,
    pub mode_file_path: String,
    pub traffic_log_dir: String,
    /// The longest body that is stored whole, in bytes.
    pub max_body_bytes: usize,
    pub smart_swap_enabled: bool,
    /// The headers that are redacted for every service.
    pub redact_headers: Vec<String>,
    pub accept_invalid_certs: bool,
    pub reload: ReloadStrategy,
    pub poll_ms: u64,
}

#[verifier::ext_equal]
pub struct SettingsView {
    pub json_logs: bool,
    pub log_level: Seq<char>,
    pub backend_url: Seq<char>,
    pub port: u16,
    pub mock_dir: Seq<char>,
    pub sequence_file_path: Seq<char>,
    pub mode_file_path: Seq<char>,
    pub traffic_log_dir: Seq<char>,
    pub max_body_bytes: usize,
    pub smart_swap_enabled: bool,
    pub redact_headers: Seq<Seq<char>>,
    pub accept_invalid_certs: bool,
    pub reload: ReloadStrategy,
    pub poll_ms: u64,
}

impl DeepView for Settings {
    type V = SettingsView;

    open spec fn deep_view(&self) -> SettingsView {
        SettingsView {
            json_logs: self.json_logs,
            log_level: self.log_level@,
            backend_url: self.backend_url@,
            port: self.port,
            mock_dir: self.mock_dir@,
            sequence_file_path: self.sequence_file_path@,
            mode_file_path: self.mode_file_path@,
            traffic_log_dir: self.traffic_log_dir@,
            max_body_bytes: self.max_body_bytes,
            smart_swap_enabled: self.smart_swap_enabled,
            redact_headers: self.redact_headers.deep_view(),
            accept_invalid_certs: self.accept_invalid_certs,
            reload: self.reload,
            poll_ms: self.poll_ms,
        }
    }
}

/// The value of a variable.
pub open spec fn variable(env: Map<Seq<char>, Seq<char>>, name: Seq<char>) -> Option<Seq<char>> {
    if env.contains_key(name) {
        Some(env[name])
    } else {
        None
    }
}

/// The value of a variable, or a default.
pub open spec fn variable_or(
    env: Map<Seq<char>, Seq<char>>,
    name: Seq<char>,
    default: Seq<char>,
) -> Seq<char> {
    match variable(env, name) {
        Some(v) => v,
        None => default,
    }
}

/// The value of a variable as a number of at most `max`, or a default if there is none.
pub open spec fn number_or(
    env: Map<Seq<char>, Seq<char>>,
    name: Seq<char>,
    max: nat,
    default: nat,
) -> nat {
    match variable(env, name) {
        Some(v) => match numbers::unsigned_in(v, max) {
            Some(n) => n,
            None => default,
        },
        None => default,
    }
}

/// The settings that these variables give.
pub open spec fn settings_in(env: Map<Seq<char>, Seq<char>>) -> SettingsView {
    SettingsView {
        json_logs: variable(env, "LOG_FORMAT"@) == Some("json"@),
        log_level: variable_or(env, "LOG_LEVEL"@, "info"@),
        backend_url: variable_or(env, "BACKEND_URL"@, "http://127.0.0.1:3000"@),
        port: number_or(env, "PROXY_PORT"@, 65_535, 8080) as u16,
        mock_dir: variable_or(env, "MOCK_DIR"@, "data/mocks"@),
        sequence_file_path: variable_or(env, "SEQUENCE_FILE_PATH"@, "data/sequences.jsonl"@),
        mode_file_path: variable_or(env, "MODE_FILE_PATH"@, "data/mode.txt"@),
        traffic_log_dir: variable_or(env, "TRAFFIC_LOG_DIR"@, "data/traffic"@),
        max_body_bytes: number_or(
            env,
            "MAX_BODY_BYTES"@,
            usize::MAX as nat,
            1_048_576,
        ) as usize,
        smart_swap_enabled: variable(env, "SMART_SWAP_ENABLED"@) is Some
            && chars::same_ignoring_case(env["SMART_SWAP_ENABLED"@], "true"@),
        redact_headers: recording::redacted_for_all(variable(env, "REDACT_HEADERS"@)),
        accept_invalid_certs: variable(env, "ACCEPT_INVALID_CERTS"@) == Some("true"@),
        reload: files::strategy_named(variable(env, "MOCK_RELOAD_STRATEGY"@)),
        poll_ms: number_or(env, "MOCK_RELOAD_POLL_MS"@, u64::MAX as nat, 30_000) as u64,
    }
}

fn value_of<'a>(env: &'a OrdMap<String, String>, name: &str) -> (r: Option<&'a str>)
    ensures
        r.deep_view() == variable(env.deep_view(), name@),
{
    match env.get(&name.to_owned()) {
        Some(v) => Some(v.as_str()),
        None => None,
    }
}

fn text_or(env: &OrdMap<String, String>, name: &str, default: &str) -> (r: String)
    ensures
        r@ == variable_or(env.deep_view(), name@, default@),
{
    match value_of(env, name) {
        Some(v) => v.to_owned(),
        None => default.to_owned(),
    }
}

fn is_set_to(env: &OrdMap<String, String>, name: &str, value: &str) -> (r: bool)
    ensures
        r == (variable(env.deep_view(), name@) == Some(value@)),
{
    match value_of(env, name) {
        Some(v) => same_text(v, value),
        None => false,
    }
}

/// The settings that these variables give.
pub fn read_settings(env: &OrdMap<String, String>) -> (r: Settings)
    ensures
        r.deep_view() == settings_in(env.deep_view()),
{
    let smart_swap_enabled = match value_of(env, "SMART_SWAP_ENABLED") {
        Some(v) => eq_ignoring_case(v, "true"),
        None => false,
    };
    let port: u64 = setting(value_of(env, "PROXY_PORT"), 65_535, 8080);
    let max_body: u64 = setting(
        value_of(env, "MAX_BODY_BYTES"),
        usize::MAX as u64,
        1_048_576,
    );
    Settings {
        json_logs: is_set_to(env, "LOG_FORMAT", "json"),
        log_level: text_or(env, "LOG_LEVEL", "info"),
        backend_url: text_or(env, "BACKEND_URL", "http://127.0.0.1:3000"),
        port: port as u16,
        mock_dir: text_or(env, "MOCK_DIR", "data/mocks"),
        sequence_file_path: text_or(env, "SEQUENCE_FILE_PATH", "data/sequences.jsonl"),
        mode_file_path: text_or(env, "MODE_FILE_PATH", "data/mode.txt"),
        traffic_log_dir: text_or(env, "TRAFFIC_LOG_DIR", "data/traffic"),
        max_body_bytes: max_body as usize,
        smart_swap_enabled,
        redact_headers: redaction_list(value_of(env, "REDACT_HEADERS")),
        accept_invalid_certs: is_set_to(env, "ACCEPT_INVALID_CERTS", "true"),
        reload: ReloadStrategy::from_value(value_of(env, "MOCK_RELOAD_STRATEGY")),
        poll_ms: poll_interval_ms(value_of(env, "MOCK_RELOAD_POLL_MS")),
    }
}

/// The variables with these set, one after the other.
pub open spec fn with_variables(
    env: Map<Seq<char>, Seq<char>>,
    vs: Seq<(Seq<char>, Seq<char>)>,
) -> Map<Seq<char>, Seq<char>>
    decreases vs.len(),
{
    if vs.len() == 0 {
        env
    } else {
        with_variables(env, vs.drop_last()).insert(vs.last().0, vs.last().1)
    }
}

/// What a list of variables with different names sets is what they are then set to.
proof fn lemma_variable_is_set(
    env: Map<Seq<char>, Seq<char>>,
    vs: Seq<(Seq<char>, Seq<char>)>,
    i: int,
)
    requires
        0 <= i < vs.len(),
        forall|j: int| i < j < vs.len() ==> (#[trigger] vs[j]).0 != vs[i].0,
    ensures
        variable(with_variables(env, vs), vs[i].0) == Some(vs[i].1),
    decreases vs.len(),
{
    if i < vs.len() - 1 {
        let init = vs.drop_last();
        assert(init[i] == vs[i]);
        assert forall|j: int| i < j < init.len() implies (#[trigger] init[j]).0 != init[i].0 by {
            assert(init[j] == vs[j]);
        }
        lemma_variable_is_set(env, init, i);
        assert(vs[vs.len() - 1].0 != vs[i].0);
    }
}

/// The arguments of `start` count before the variables that were set.
pub proof fn law_arguments_win(
    env: Map<Seq<char>, Seq<char>>,
    upstream: Option<Seq<char>>,
    port: u16,
    data_dir: Seq<char>,
    mode: ModeArg,
)
    ensures
        ({
            let vs = start_variables(upstream, port, data_dir, mode);
            let after = with_variables(env, vs);
            let s = settings_in(after);
            let data = chars::without_end_slashes(data_dir);
            &&& s.port == port
            &&& s.mock_dir == data + "/mocks"@
            &&& s.sequence_file_path == data + "/sequences.jsonl"@
            &&& s.mode_file_path == data + "/mode.txt"@
            &&& s.traffic_log_dir == data + "/traffic"@
            &&& variable(after, "INITIAL_MODE"@) == Some(mode_arg_label(mode))
            &&& upstream is Some ==> s.backend_url == upstream->0
        }),
{
    let vs = start_variables(upstream, port, data_dir, mode);
    let n: int = if upstream is Some {
        1
    } else {
        0
    };
    reveal_strlit("BACKEND_URL");
    reveal_strlit("PROXY_PORT");
    reveal_strlit("MOCK_DIR");
    reveal_strlit("SEQUENCE_FILE_PATH");
    reveal_strlit("MODE_FILE_PATH");
    reveal_strlit("TRAFFIC_LOG_DIR");
    reveal_strlit("INITIAL_MODE");
    assert(vs[n].0 == "PROXY_PORT"@ && vs[n].0.len() == 10);
    assert(vs[n + 1].0 == "MOCK_DIR"@ && vs[n + 1].0.len() == 8);
    assert(vs[n + 2].0 == "SEQUENCE_FILE_PATH"@ && vs[n + 2].0.len() == 18);
    assert(vs[n + 3].0 == "MODE_FILE_PATH"@ && vs[n + 3].0.len() == 14);
    assert(vs[n + 4].0 == "TRAFFIC_LOG_DIR"@ && vs[n + 4].0.len() == 15);
    assert(vs[n + 5].0 == "INITIAL_MODE"@ && vs[n + 5].0.len() == 12);
    assert(vs.len() == n + 6);
    if upstream is Some {
        assert(vs[0].0 == "BACKEND_URL"@ && vs[0].0.len() == 11);
        lemma_variable_is_set(env, vs, 0);
    }
    lemma_variable_is_set(env, vs, n);
    lemma_variable_is_set(env, vs, n + 1);
    lemma_variable_is_set(env, vs, n + 2);
    lemma_variable_is_set(env, vs, n + 3);
    lemma_variable_is_set(env, vs, n + 4);
    lemma_variable_is_set(env, vs, n + 5);
    numbers::law_decimal_round_trip(port as nat, 65_535);
}

// ─── Client commands ─────────────────────────────────────────────────────────

/// The URL of the proxy on this port.
pub fn proxy_base(port: u16) -> (r: String)
    ensures
        r@ == "http://127.0.0.1:"@ + numbers::decimal(port as nat),
{
    concat("http://127.0.0.1:", decimal_text(port as u64).as_str())
}

/// The URL of a path of the proxy on this port.
pub fn proxy_url(port: u16, path: &str) -> (r: String)
    ensures
        r@ == "http://127.0.0.1:"@ + numbers::decimal(port as nat) + path@,
{
    concat(proxy_base(port).as_str(), path)
}

/// The message after the mode has been set, with the reply of the proxy.
pub fn mode_set_message(mode: ModeArg, reply: &str) -> (r: String)
    ensures
        r@ == "mode set to "@ + mode_arg_label(mode) + " ("@ + chars::trimmed(reply@) + ")"@,
{
    let mut s = concat("mode set to ", mode.as_str());
    s.append(" (");
    s.append(trim(reply).as_str());
    s.append(")");
    s
}

/// The error if the proxy cannot be reached.
pub fn unreachable_message(url: &str, error: &str) -> (r: String)
    ensures
        r@ == "could not reach proxy at "@ + url@ + ": "@ + error@,
{
    let mut s = concat("could not reach proxy at ", url);
    s.append(": ");
    s.append(error);
    s
}

/// The error if a reply is not JSON.
pub fn invalid_json_message(url: &str, error: &str) -> (r: String)
    ensures
        r@ == "invalid JSON from "@ + url@ + ": "@ + error@,
{
    let mut s = concat("invalid JSON from ", url);
    s.append(": ");
    s.append(error);
    s
}

/// The error if the proxy replies with a status that is no success.
pub fn refused_message(status: &str, reply: &str) -> (r: String)
    ensures
        r@ == "proxy returned "@ + status@ + ": "@ + reply@,
{
    let mut s = concat("proxy returned ", status);
    s.append(": ");
    s.append(reply);
    s
}

/// The log file in a data directory.
pub fn log_path(data_dir: &str) -> (r: String)
    ensures
        r@ == chars::without_end_slashes(data_dir@) + "/proxy.log"@,
{
    concat(trim_end_slashes(data_dir).as_str(), "/proxy.log")
}

/// The error if there is no log file.
pub fn no_log_message(path: &str) -> (r: String)
    ensures
        r@ == "no log file at "@ + path@
            + ". Redirect the proxy with `gostly start ... 2>&1 | tee "@ + path@
            + "` or set LOG_FORMAT=json and pipe to your log shipper."@,
{
    let mut s = concat("no log file at ", path);
    s.append(". Redirect the proxy with `gostly start ... 2>&1 | tee ");
    s.append(path);
    s.append("` or set LOG_FORMAT=json and pipe to your log shipper.");
    s
}

// ─── Stopping ────────────────────────────────────────────────────────────────

/// The pidfile in a data directory.
pub fn pidfile_path(data_dir: &str) -> (r: String)
    ensures
        r@ == chars::without_end_slashes(data_dir@) + "/gostly.pid"@,
{
    concat(trim_end_slashes(data_dir).as_str(), "/gostly.pid")
}

/// The process id in a text, which can stand between spaces.
pub open spec fn pid_in(s: Seq<char>) -> Option<int> {
    numbers::signed_in(chars::trimmed(s))
}

/// The process id in the first line of a listing.
pub open spec fn first_pid_in(listing: Seq<char>) -> Option<int> {
    let ls = text::lines(listing);
    if ls.len() == 0 {
        None
    } else {
        pid_in(ls[0])
    }
}

/// The process id in the content of a pidfile.
pub fn pid_in_file(content: &str) -> (r: Option<i32>)
    ensures
        match r {
            Some(pid) => pid_in(content@) == Some(pid as int),
            None => pid_in(content@) is None,
        },
{
    parse_i32(trim(content).as_str())
}

/// The process id in the first line of a listing of processes.
pub fn pid_in_listing(listing: &str) -> (r: Option<i32>)
    ensures
        match r {
            Some(pid) => first_pid_in(listing@) == Some(pid as int),
            None => first_pid_in(listing@) is None,
        },
{
    let ls = lines_of(listing);
    if ls.len() == 0 {
        None
    } else {
        assert(text::lines(listing@)[0] == ls@[0]@);
        pid_in_file(ls[0].as_str())
    }
}

/// The process id that the proxy wrote is the one that is stopped, also with white
/// space after it.
pub proof fn law_pidfile_round_trip(pid: nat, ws: Seq<char>)
    requires
        pid <= i32::MAX,
        forall|i: int| 0 <= i < ws.len() ==> chars::is_space(#[trigger] ws[i]),
    ensures
        pid_in(numbers::decimal(pid) + ws) == Some(pid as int),
{
    let s = numbers::decimal(pid);
    let t = s + ws;
    numbers::lemma_decimal_digits(pid);
    numbers::law_decimal_round_trip(pid, 0x7fff_ffff);
    assert(chars::is_digit(s[0]));
    assert(chars::is_digit(s[s.len() - 1]));
    assert(t[0] == s[0]);
    assert(chars::trim_start(t, |c: char| chars::is_space(c)) == t);
    chars::lemma_trim_end_spaces(s, ws);
}

/// The message if there is no proxy to stop.
pub fn nothing_to_stop_message(pidfile: &str) -> (r: String)
    ensures
        r@ == "no running proxy found (pidfile "@ + pidfile@
            + " absent and no gostly-agent in pgrep)"@,
{
    let mut s = concat("no running proxy found (pidfile ", pidfile);
    s.append(" absent and no gostly-agent in pgrep)");
    s
}

/// The error number of a process that is not there.
pub const NO_SUCH_PROCESS: i32 = 3;

/// What stopping a process came to: the message, or the error. `rc` is the result of
/// the signal, `errno` and `error` the error number and its text if it failed.
pub fn stop_outcome(pid: i32, rc: i32, errno: Option<i32>, error: &str) -> (r: Result<
    String,
    String,
>)
    ensures
        r is Ok == stop_succeeds(rc, errno),
        ({
            let p = numbers::signed_decimal(pid as int);
            if rc == 0 {
                r is Ok && r->Ok_0@ == "sent SIGTERM to proxy (pid "@ + p + ")"@
            } else if errno == Some(NO_SUCH_PROCESS) {
                r is Ok && r->Ok_0@ == "proxy (pid "@ + p + ") was not running"@
            } else {
                r is Err && r->Err_0@ == "kill(pid="@ + p + ", SIGTERM) failed: "@ + error@
            }
        }),
{
    let p = signed_decimal_text(pid as i64);
    if rc == 0 {
        let mut s = concat("sent SIGTERM to proxy (pid ", p.as_str());
        s.append(")");
        return Ok(s);
    }
    if let Some(n) = errno {
        if n == NO_SUCH_PROCESS {
            let mut s = concat("proxy (pid ", p.as_str());
            s.append(") was not running");
            return Ok(s);
        }
    }
    let mut s = concat("kill(pid=", p.as_str());
    s.append(", SIGTERM) failed: ");
    s.append(error);
    Err(s)
}

/// Each setting is read from its own variable; without it, it has its default.
pub proof fn law_settings_are_read(env: Map<Seq<char>, Seq<char>>)
    ensures
        ({
            let s = settings_in(env);
            &&& env.contains_key("LOG_LEVEL"@) ==> s.log_level == env["LOG_LEVEL"@]
            &&& !env.contains_key("LOG_LEVEL"@) ==> s.log_level == "info"@
            &&& s.json_logs <==> env.contains_key("LOG_FORMAT"@) && env["LOG_FORMAT"@] == "json"@
            &&& env.contains_key("BACKEND_URL"@) ==> s.backend_url == env["BACKEND_URL"@]
            &&& !env.contains_key("BACKEND_URL"@) ==> s.backend_url == "http://127.0.0.1:3000"@
            &&& env.contains_key("MOCK_DIR"@) ==> s.mock_dir == env["MOCK_DIR"@]
            &&& !env.contains_key("MOCK_DIR"@) ==> s.mock_dir == "data/mocks"@
            &&& env.contains_key("SEQUENCE_FILE_PATH"@) ==> s.sequence_file_path
                == env["SEQUENCE_FILE_PATH"@]
            &&& !env.contains_key("SEQUENCE_FILE_PATH"@) ==> s.sequence_file_path
                == "data/sequences.jsonl"@
            &&& env.contains_key("MODE_FILE_PATH"@) ==> s.mode_file_path == env["MODE_FILE_PATH"@]
            &&& !env.contains_key("MODE_FILE_PATH"@) ==> s.mode_file_path == "data/mode.txt"@
            &&& env.contains_key("TRAFFIC_LOG_DIR"@) ==> s.traffic_log_dir
                == env["TRAFFIC_LOG_DIR"@]
            &&& !env.contains_key("TRAFFIC_LOG_DIR"@) ==> s.traffic_log_dir == "data/traffic"@
            &&& s.smart_swap_enabled <==> env.contains_key("SMART_SWAP_ENABLED"@)
                && chars::same_ignoring_case(env["SMART_SWAP_ENABLED"@], "true"@)
            &&& s.accept_invalid_certs <==> env.contains_key("ACCEPT_INVALID_CERTS"@)
                && env["ACCEPT_INVALID_CERTS"@] == "true"@
            &&& env.contains_key("REDACT_HEADERS"@) ==> s.redact_headers
                == recording::redacted_for_all(Some(env["REDACT_HEADERS"@]))
            &&& !env.contains_key("REDACT_HEADERS"@) ==> s.redact_headers
                == recording::redacted_for_all(None)
            &&& env.contains_key("MOCK_RELOAD_STRATEGY"@) ==> s.reload == files::strategy_named(
                Some(env["MOCK_RELOAD_STRATEGY"@]),
            )
            &&& !env.contains_key("MOCK_RELOAD_STRATEGY"@) ==> s.reload == ReloadStrategy::FsWatch
        }),
{
}

/// A number that is written in a variable is read from it, and where it holds none its
/// default counts: port 8080, bodies of up to 1048576 bytes, a poll every 30 seconds.
pub proof fn law_numbers_are_read(env: Map<Seq<char>, Seq<char>>, n: nat)
    ensures
        n <= 65_535 && env.contains_key("PROXY_PORT"@) && env["PROXY_PORT"@] == numbers::decimal(n)
            ==> settings_in(env).port == n,
        !env.contains_key("PROXY_PORT"@) ==> settings_in(env).port == 8080,
        n <= usize::MAX && env.contains_key("MAX_BODY_BYTES"@) && env["MAX_BODY_BYTES"@]
            == numbers::decimal(n) ==> settings_in(env).max_body_bytes == n,
        !env.contains_key("MAX_BODY_BYTES"@) ==> settings_in(env).max_body_bytes == 1_048_576,
        n <= u64::MAX && env.contains_key("MOCK_RELOAD_POLL_MS"@) && env["MOCK_RELOAD_POLL_MS"@]
            == numbers::decimal(n) ==> settings_in(env).poll_ms == n,
        !env.contains_key("MOCK_RELOAD_POLL_MS"@) ==> settings_in(env).poll_ms == 30_000,
        env.contains_key("PROXY_PORT"@) && numbers::unsigned_in(env["PROXY_PORT"@], 65_535) is None
            ==> settings_in(env).port == 8080,
        env.contains_key("MAX_BODY_BYTES"@) && numbers::unsigned_in(
            env["MAX_BODY_BYTES"@],
            usize::MAX as nat,
        ) is None ==> settings_in(env).max_body_bytes == 1_048_576,
        env.contains_key("MOCK_RELOAD_POLL_MS"@) && numbers::unsigned_in(
            env["MOCK_RELOAD_POLL_MS"@],
            u64::MAX as nat,
        ) is None ==> settings_in(env).poll_ms == 30_000,
{
    if n <= 65_535 {
        numbers::law_decimal_round_trip(n, 65_535);
    }
    if n <= usize::MAX {
        numbers::law_decimal_round_trip(n, usize::MAX as nat);
    }
    if n <= u64::MAX {
        numbers::law_decimal_round_trip(n, u64::MAX as nat);
    }
}

/// Stopping succeeded: the signal was sent, or there was no such process.
pub open spec fn stop_succeeds(rc: i32, errno: Option<i32>) -> bool {
    rc == 0 || errno == Some(NO_SUCH_PROCESS)
}

/// A process that is gone counts as stopped; any other failure of the signal is an error.
pub proof fn law_stopping(rc: i32, errno: i32)
    ensures
        stop_succeeds(0, None),
        stop_succeeds(rc, Some(3)),
        rc != 0 && errno != 3 ==> !stop_succeeds(rc, Some(errno)),
        rc != 0 ==> !stop_succeeds(rc, None),
{
}

/// The mode that is chosen on the command line is the one that a proxy without a mode
/// file starts in.
pub proof fn law_chosen_mode_is_started()
    ensures
        files::initial_mode(None, Some(mode_arg_label(ModeArg::Learn))) == Mode::Learn,
        files::initial_mode(None, Some(mode_arg_label(ModeArg::Mock))) == Mode::Mock,
        files::initial_mode(None, Some(mode_arg_label(ModeArg::Passthrough))) == Mode::Passthrough,
        types::labelled_mode(mode_arg_label(ModeArg::Learn)) == Some(Mode::Learn),
        types::labelled_mode(mode_arg_label(ModeArg::Mock)) == Some(Mode::Mock),
        types::labelled_mode(mode_arg_label(ModeArg::Passthrough)) == Some(Mode::Passthrough),
{
    types::law_mode_labels();
    reveal_strlit("LEARN");
    reveal_strlit("MOCK");
    reveal_strlit("PASSTHROUGH");
    lemma_upper("LEARN"@);
    lemma_upper("MOCK"@);
    lemma_upper("PASSTHROUGH"@);
    assert("LEARN"@.len() == 5 && "MOCK"@.len() == 4 && "PASSTHROUGH"@.len() == 11);
}

proof fn lemma_upper(s: Seq<char>)
    requires
        forall|i: int| 0 <= i < s.len() ==> 'A' <= #[trigger] s[i] <= 'Z',
    ensures
        chars::uppercase(s) == s,
{
    assert(vstd::utf8::is_ascii_chars(s));
    assert(chars::ascii_upper(s) =~= s);
}

} // verus!
