//! What the proxy reads from and writes to its data directory: file names, lines
//! and the mode file.
use crate::chars;
use crate::chars::trim;
use crate::json;
use crate::json::Json;
use crate::numbers;
use crate::numbers::parse_unsigned;
use crate::text;
use crate::text::has_prefix;
use crate::text::has_suffix;
use crate::text::join_text;
use crate::text::same_text;
use crate::text::slice_text;
use crate::types;
use crate::types::Mode;
use vstd::prelude::*;
use vstd::string::StrSliceExecFns;
use vstd::string::StringExecFns;

verus! {

// ─── Names ───────────────────────────────────────────────────────────────────

/// The name of the mock file of a service.
pub open spec fn mock_file(svc: Seq<char>) -> Seq<char> {
    "mock_"@ + svc + ".jsonl"@
}

/// The service whose mock file has this name, if it is the name of one.
pub open spec fn mock_file_service(name: Seq<char>) -> Option<Seq<char>> {
    if text::starts_with(name, "mock_"@) && text::ends_with(name, ".jsonl"@) {
        Some(name.subrange(5, name.len() - 6))
    } else {
        None
    }
}

/// The service whose mock file has this name: `mock_{service}.jsonl`.
pub fn service_of_mock_file(name: &str) -> (r: Option<String>)
    ensures
        r.deep_view() == mock_file_service(name@),
{
    if !has_prefix(name, "mock_") || !has_suffix(name, ".jsonl") {
        return None;
    }
    proof {
        lemma_mock_file_length(name@);
    }
    let n = name.unicode_len();
    Some(slice_text(name, 5, n - 6))
}

proof fn lemma_mock_file_length(name: Seq<char>)
    requires
        text::starts_with(name, "mock_"@),
        text::ends_with(name, ".jsonl"@),
    ensures
        name.len() >= 11,
{
    reveal_strlit("mock_");
    reveal_strlit(".jsonl");
    let p = "mock_"@;
    let q = ".jsonl"@;
    assert(p.len() == 5 && q.len() == 6);
    if name.len() < 11 {
        let k = name.len() - 6;
        assert(name.subrange(k, k + 6)[0] == name[k]);
        assert(name.subrange(0, 5)[k] == name[k]);
        assert(q[0] == '.');
        assert(p[k] != '.');
    }
}

/// The mock file of a service leads back to that service.
pub proof fn law_mock_file_round_trip(svc: Seq<char>)
    ensures
        mock_file_service(mock_file(svc)) == Some(svc),
{
    reveal_strlit("mock_");
    reveal_strlit(".jsonl");
    let name = mock_file(svc);
    assert(name.subrange(0, 5) =~= "mock_"@);
    assert(name.subrange(name.len() - 6, name.len() as int) =~= ".jsonl"@);
    assert(name.subrange(5, name.len() - 6) =~= svc);
}

fn concat3(a: &str, b: &str, c: &str) -> (r: String)
    ensures
        r@ == a@ + b@ + c@,
{
    let mut s = a.to_owned();
    s.append(b);
    s.append(c);
    s
}

/// The mock file of a service in `dir`.
pub fn mock_log_path(dir: &str, service_id: &str) -> (r: String)
    ensures
        r@ == dir@ + "/"@ + mock_file(service_id@),
{
    let name = concat3("mock_", service_id, ".jsonl");
    concat3(dir, "/", name.as_str())
}

/// The name of the traffic file of a service.
pub open spec fn traffic_file(svc: Seq<char>) -> Seq<char> {
    "traffic_"@ + svc + ".jsonl"@
}

/// The traffic file of a service is named after it, and is never taken for a mock file.
pub proof fn law_traffic_file_names(svc: Seq<char>)
    ensures
        traffic_file(svc) == "traffic_"@ + svc + ".jsonl"@,
        mock_file_service(traffic_file(svc)) is None,
{
    reveal_strlit("traffic_");
    reveal_strlit("mock_");
    let name = traffic_file(svc);
    if text::starts_with(name, "mock_"@) {
        assert(name.subrange(0, 5)[0] == name[0]);
        assert(name[0] == 't');
        assert("mock_"@[0] == 'm');
    }
}

/// The traffic file of a service in `dir`.
pub fn traffic_log_path(dir: &str, service_id: &str) -> (r: String)
    ensures
        r@ == dir@ + "/"@ + traffic_file(service_id@),
{
    let name = concat3("traffic_", service_id, ".jsonl");
    concat3(dir, "/", name.as_str())
}

/// The file that is written before it takes the place of `path`.
pub fn tmp_path(path: &str) -> (r: String)
    ensures
        r@ == path@ + ".tmp"@,
{
    let mut s = path.to_owned();
    s.append(".tmp");
    s
}

// ─── Lines ───────────────────────────────────────────────────────────────────

/// A line as it is appended to a log.
pub fn log_line(line: &str) -> (r: String)
    ensures
        r@ == line@.push('\n'),
{
    let mut s = line.to_owned();
    s.push('\n');
    s
}

/// The content of a compacted file: the lines, each ended by a line feed.
pub fn compacted_text(lines: &Vec<String>) -> (r: String)
    ensures
        r@ == text::join(lines.deep_view(), seq!['\n']).push('\n'),
{
    proof {
        reveal_strlit("\n");
        assert("\n"@ =~= seq!['\n']);
    }
    let mut s = join_text(lines, "\n");
    s.push('\n');
    s
}

/// The content of a file of lines, each ended by a line feed. Nothing if there are none.
pub open spec fn lines_file(ls: Seq<Seq<char>>) -> Seq<char> {
    if ls.len() == 0 {
        Seq::empty()
    } else {
        text::join(ls, seq!['\n']).push('\n')
    }
}

/// The lines of a file are read back as they were written, and none from an empty file, as
/// long as no line holds a line feed or a carriage return.
pub proof fn law_file_gives_back_its_lines(ls: Seq<Seq<char>>)
    requires
        forall|i: int|
            0 <= i < ls.len() ==> text::lacks_char(#[trigger] ls[i], '\n') && text::lacks_char(
                ls[i],
                '\r',
            ),
    ensures
        text::lines(lines_file(ls)) == ls,
{
    if ls.len() > 0 {
        law_lines_round_trip(ls);
    } else {
        let e = Seq::<char>::empty();
        text::lemma_find_char_lacking(e, '\n');
        assert(text::split(e, '\n') =~= seq![e]);
        assert(text::lines(e) =~= ls);
    }
}

/// A carriage return before a line feed is no part of the line.
pub proof fn law_carriage_returns_are_dropped(ls: Seq<Seq<char>>)
    requires
        ls.len() > 0,
        forall|i: int| 0 <= i < ls.len() ==> text::lacks_char(#[trigger] ls[i], '\n'),
    ensures
        text::lines(
            text::join(ls.map_values(|l: Seq<char>| l.push('\r')), seq!['\n']).push('\n'),
        ) == ls,
{
    let cr = ls.map_values(|l: Seq<char>| l.push('\r'));
    let parts = cr.push(Seq::empty());
    assert(parts.drop_last() =~= cr);
    assert(text::join(parts, seq!['\n']) =~= text::join(cr, seq!['\n']).push('\n'));
    assert forall|i: int| 0 <= i < parts.len() implies text::lacks_char(
        #[trigger] parts[i],
        '\n',
    ) by {
        if i < cr.len() {
            assert(parts[i] == ls[i].push('\r'));
            assert(text::lacks_char(ls[i], '\n'));
            assert forall|j: int| 0 <= j < parts[i].len() implies #[trigger] parts[i][j] != '\n' by {
                if j < ls[i].len() {
                    assert(parts[i][j] == ls[i][j]);
                }
            }
        }
    }
    text::lemma_split_join(parts, '\n');
    let ended = cr.map_values(|p: Seq<char>| text::without_cr(p));
    assert forall|i: int| 0 <= i < ls.len() implies ended[i] == ls[i] by {
        assert(cr[i] == ls[i].push('\r'));
        assert(ls[i].push('\r').drop_last() =~= ls[i]);
    }
    assert(ended =~= ls);
}

/// The content of the sequence file: the lines, each ended by a line feed. Nothing
/// if there are none.
pub fn sequences_text(lines: &Vec<String>) -> (r: String)
    ensures
        r@ == lines_file(lines.deep_view()),
{
    if lines.len() == 0 {
        String::new()
    } else {
        compacted_text(lines)
    }
}

/// What `compacted_text` writes is read back line by line, as long as there is a
/// line and no line holds a line feed or ends in a carriage return.
pub proof fn law_lines_round_trip(ls: Seq<Seq<char>>)
    requires
        ls.len() > 0,
        forall|i: int|
            0 <= i < ls.len() ==> text::lacks_char(#[trigger] ls[i], '\n') && text::lacks_char(
                ls[i],
                '\r',
            ),
    ensures
        text::lines(text::join(ls, seq!['\n']).push('\n')) == ls,
{
    let s = text::join(ls, seq!['\n']).push('\n');
    let parts = ls.push(Seq::empty());
    assert(parts.drop_last() =~= ls);
    assert(text::join(parts, seq!['\n']) =~= s);
    assert forall|i: int| 0 <= i < parts.len() implies text::lacks_char(
        #[trigger] parts[i],
        '\n',
    ) by {
        if i < ls.len() {
            assert(parts[i] == ls[i]);
        }
    }
    text::lemma_split_join(parts, '\n');
    let ended = ls.map_values(|p: Seq<char>| text::without_cr(p));
    assert forall|i: int| 0 <= i < ls.len() implies #[trigger] ended[i] == ls[i] by {
        assert(text::lacks_char(ls[i], '\r'));
        if ls[i].len() > 0 {
            assert(ls[i][ls[i].len() - 1] != '\r');
        }
    }
    assert(ended =~= ls);
}

// ─── Mode file ───────────────────────────────────────────────────────────────

/// The mode that the content of the mode file names: its label, with white space
/// around it dropped, read as a JSON string.
pub open spec fn mode_in_file(content: Seq<char>) -> Option<Mode> {
    match json::json_in(json::quoted(chars::trimmed(content))) {
        Some(m) => types::mode_of_model(m),
        None => None,
    }
}

/// The content of the mode file for a mode. A transition is not kept: after a
/// restart the last lasting mode counts.
pub open spec fn mode_file_content(mode: Mode) -> Option<Seq<char>> {
    if mode == Mode::Transitioning {
        None
    } else {
        Some(types::mode_label(mode))
    }
}

/// The mode that the content of the mode file names.
pub fn parse_mode_file(content: &str) -> (r: Option<Mode>)
    ensures
        r == mode_in_file(content@),
{
    let label = trim(content);
    let quoted = concat3("\"", label.as_str(), "\"");
    proof {
        reveal_strlit("\"");
        assert("\""@ =~= seq!['"']);
    }
    match Json::parse(quoted.as_str()) {
        Some(j) => Mode::from_json(&j),
        None => None,
    }
}

/// The content of the mode file for a mode. Nothing is written for a transition.
pub fn mode_file_text(mode: &Mode) -> (r: Option<String>)
    ensures
        r.deep_view() == mode_file_content(*mode),
{
    if *mode == Mode::Transitioning {
        None
    } else {
        Some(mode.label())
    }
}

proof fn lemma_label_is_plain(mode: Mode)
    ensures
        json::is_plain(types::mode_label(mode)),
        types::mode_label(mode).len() > 0,
        forall|i: int|
            0 <= i < types::mode_label(mode).len() ==> !chars::is_space(
                #[trigger] types::mode_label(mode)[i],
            ),
{
    reveal_strlit("LEARN");
    reveal_strlit("MOCK");
    reveal_strlit("PASSTHROUGH");
    reveal_strlit("TRANSITIONING");
    let s = types::mode_label(mode);
    assert forall|i: int| 0 <= i < s.len() implies chars::is_letter(#[trigger] s[i]) by {
        match mode {
            Mode::Learn => {
                assert(s.len() == 5);
                assert(i == 0 || i == 1 || i == 2 || i == 3 || i == 4);
            },
            Mode::Mock => {
                assert(s.len() == 4);
                assert(i == 0 || i == 1 || i == 2 || i == 3);
            },
            Mode::Passthrough => {
                assert(s.len() == 11);
                assert(i == 0 || i == 1 || i == 2 || i == 3 || i == 4 || i == 5 || i == 6 || i == 7
                    || i == 8 || i == 9 || i == 10);
            },
            Mode::Transitioning => {
                assert(s.len() == 13);
                assert(i == 0 || i == 1 || i == 2 || i == 3 || i == 4 || i == 5 || i == 6 || i == 7
                    || i == 8 || i == 9 || i == 10 || i == 11 || i == 12);
            },
        }
    }
}

/// The mode that was written is the mode that is read, also with white space after
/// it.
pub proof fn law_mode_file_round_trip(mode: Mode, ws: Seq<char>)
    requires
        mode != Mode::Transitioning,
        forall|i: int| 0 <= i < ws.len() ==> chars::is_space(#[trigger] ws[i]),
    ensures
        mode_file_content(mode) is Some,
        mode_in_file(mode_file_content(mode)->0 + ws) == Some(mode),
{
    let s = types::mode_label(mode);
    lemma_label_is_plain(mode);
    let p = |c: char| chars::is_space(c);
    let t = s + ws;
    assert(t[0] == s[0]);
    assert(chars::trim_start(t, p) == t);
    chars::lemma_trim_end_spaces(s, ws);
    json::law_plain_text_round_trip(s);
    types::law_mode_label_round_trip(mode);
}

/// The mode at start: that of the mode file, else the one that `INITIAL_MODE` names
/// in either case, else `LEARN`.
pub open spec fn initial_mode(file: Option<Mode>, env: Option<Seq<char>>) -> Mode {
    match file {
        Some(m) => m,
        None => match env {
            Some(v) => {
                let u = chars::uppercase(v);
                if u == "MOCK"@ {
                    Mode::Mock
                } else if u == "PASSTHROUGH"@ {
                    Mode::Passthrough
                } else {
                    Mode::Learn
                }
            },
            None => Mode::Learn,
        },
    }
}

/// The mode at start.
pub fn choose_initial_mode(file: Option<Mode>, env: Option<&str>) -> (r: Mode)
    ensures
        r == initial_mode(file, env.deep_view()),
{
    match file {
        Some(m) => m,
        None => match env {
            Some(v) => {
                let u = v.to_uppercase();
                if same_text(u.as_str(), "MOCK") {
                    Mode::Mock
                } else if same_text(u.as_str(), "PASSTHROUGH") {
                    Mode::Passthrough
                } else {
                    Mode::Learn
                }
            },
            None => Mode::Learn,
        },
    }
}

// ─── Reload ──────────────────────────────────────────────────────────────────

/// What makes the library reload.
#[derive(Clone, Copy, Debug, PartialEq, Eq, Structural)]
pub enum ReloadStrategy {
    /// A change in the mock directory.
    FsWatch,
    /// `SIGHUP`.
    Signal,
    /// A fixed interval.
    Poll,
    /// Only a request to reload.
    HttpAdmin,
}

/// The strategy of this name; the mock directory is watched without a name and with
/// any other name.
pub open spec fn strategy_named(name: Option<Seq<char>>) -> ReloadStrategy {
    match name {
        Some(v) => if v == "signal"@ {
            ReloadStrategy::Signal
        } else if v == "poll"@ {
            ReloadStrategy::Poll
        } else if v == "http_admin"@ {
            ReloadStrategy::HttpAdmin
        } else {
            ReloadStrategy::FsWatch
        },
        None => ReloadStrategy::FsWatch,
    }
}

impl ReloadStrategy {
    /// The strategy that `MOCK_RELOAD_STRATEGY` names; without it, or with any
    /// other value, the mock directory is watched.
    pub fn from_value(value: Option<&str>) -> (r: Self)
        ensures
            r == strategy_named(value.deep_view()),
    {
        match value {
            Some(v) => {
                if same_text(v, "signal") {
                    ReloadStrategy::Signal
                } else if same_text(v, "poll") {
                    ReloadStrategy::Poll
                } else if same_text(v, "http_admin") {
                    ReloadStrategy::HttpAdmin
                } else {
                    ReloadStrategy::FsWatch
                }
            },
            None => ReloadStrategy::FsWatch,
        }
    }
}

/// The number that a setting holds, or `default` if it is not set or holds none up
/// to `max`.
pub fn setting(value: Option<&str>, max: u64, default: u64) -> (r: u64)
    ensures
        r as nat == (match value.deep_view() {
            Some(v) => match numbers::unsigned_in(v, max as nat) {
                Some(n) => n,
                None => default as nat,
            },
            None => default as nat,
        }),
{
    match value {
        Some(v) => match parse_unsigned(v, max) {
            Some(n) => n,
            None => default,
        },
        None => default,
    }
}

/// The interval between two reloads in milliseconds: `MOCK_RELOAD_POLL_MS`, or 30
/// seconds.
pub fn poll_interval_ms(value: Option<&str>) -> (r: u64)
    ensures
        r as nat == (match value.deep_view() {
            Some(v) => match numbers::unsigned_in(v, u64::MAX as nat) {
                Some(n) => n,
                None => 30_000,
            },
            None => 30_000,
        }),
{
    setting(value, u64::MAX, 30_000)
}

/// The mode at start: the mode file counts before everything; without it `INITIAL_MODE`
/// in upper case names `MOCK` or `PASSTHROUGH`, and otherwise the proxy learns.
pub proof fn law_initial_mode(file: Mode, env: Option<Seq<char>>, value: Seq<char>)
    ensures
        initial_mode(Some(file), env) == file,
        chars::uppercase(value) == "MOCK"@ ==> initial_mode(None, Some(value)) == Mode::Mock,
        chars::uppercase(value) == "PASSTHROUGH"@ ==> initial_mode(None, Some(value))
            == Mode::Passthrough,
        chars::uppercase(value) != "MOCK"@ && chars::uppercase(value) != "PASSTHROUGH"@
            ==> initial_mode(None, Some(value)) == Mode::Learn,
        initial_mode(None, None) == Mode::Learn,
{
    reveal_strlit("MOCK");
    reveal_strlit("PASSTHROUGH");
    assert("MOCK"@.len() == 4 && "PASSTHROUGH"@.len() == 11);
}

/// What makes the library reload: a signal, a poll or a request if it is named so, else a
/// change in the mock directory.
pub proof fn law_reload_strategy(name: Seq<char>)
    ensures
        strategy_named(Some("signal"@)) == ReloadStrategy::Signal,
        strategy_named(Some("poll"@)) == ReloadStrategy::Poll,
        strategy_named(Some("http_admin"@)) == ReloadStrategy::HttpAdmin,
        strategy_named(None) == ReloadStrategy::FsWatch,
        name != "signal"@ && name != "poll"@ && name != "http_admin"@ ==> strategy_named(
            Some(name),
        ) == ReloadStrategy::FsWatch,
{
    reveal_strlit("signal");
    reveal_strlit("poll");
    reveal_strlit("http_admin");
    assert("signal"@.len() == 6 && "poll"@.len() == 4 && "http_admin"@.len() == 10);
}

/// The mock file of a service is named after it, and no other file is a mock file.
pub proof fn law_mock_file_names(svc: Seq<char>, name: Seq<char>)
    ensures
        mock_file(svc) == "mock_"@ + svc + ".jsonl"@,
        mock_file_service(name) == Some(svc) <==> name == "mock_"@ + svc + ".jsonl"@,
{
    law_mock_file_round_trip(svc);
    if mock_file_service(name) == Some(svc) {
        lemma_mock_file_length(name);
        reveal_strlit("mock_");
        reveal_strlit(".jsonl");
        let p = "mock_"@;
        let q = ".jsonl"@;
        assert(p.len() == 5 && q.len() == 6);
        assert(name.subrange(0, 5) == p);
        assert(name.subrange(name.len() - 6, name.len() as int) == q);
        assert(name =~= p + svc + q) by {
            assert forall|i: int| 0 <= i < name.len() implies name[i] == (p + svc + q)[i] by {
                if i < 5 {
                    assert(name.subrange(0, 5)[i] == name[i]);
                } else if i >= name.len() - 6 {
                    assert(name.subrange(name.len() - 6, name.len() as int)[i - name.len() + 6]
                        == name[i]);
                } else {
                    assert(svc[i - 5] == name[i]);
                }
            }
        }
    }
}

/// Every lasting mode is kept under its label; a transition is not kept.
pub proof fn law_mode_file_holds_label()
    ensures
        mode_file_content(Mode::Learn) == Some("LEARN"@),
        mode_file_content(Mode::Mock) == Some("MOCK"@),
        mode_file_content(Mode::Passthrough) == Some("PASSTHROUGH"@),
        mode_file_content(Mode::Transitioning) is None,
{
}

/// White space around the label in the mode file does not count.
pub proof fn law_mode_file_is_trimmed(before: Seq<char>, mode: Mode, after: Seq<char>)
    requires
        forall|i: int| 0 <= i < before.len() ==> chars::is_space(#[trigger] before[i]),
        forall|i: int| 0 <= i < after.len() ==> chars::is_space(#[trigger] after[i]),
    ensures
        mode_in_file(before + types::mode_label(mode) + after) == Some(mode),
{
    let s = types::mode_label(mode);
    lemma_label_is_plain(mode);
    assert(!chars::is_space(s[0]));
    assert(!chars::is_space(s[s.len() - 1]));
    chars::law_trimmed(before, s, after);
    json::law_plain_text_round_trip(s);
    types::law_mode_label_round_trip(mode);
}

/// Any other plain text in the mode file names no mode.
pub proof fn law_other_text_names_no_mode(content: Seq<char>)
    requires
        json::is_plain(chars::trimmed(content)),
        chars::trimmed(content) != "LEARN"@,
        chars::trimmed(content) != "MOCK"@,
        chars::trimmed(content) != "PASSTHROUGH"@,
        chars::trimmed(content) != "TRANSITIONING"@,
    ensures
        mode_in_file(content) is None,
{
    json::law_plain_text_round_trip(chars::trimmed(content));
}

} // verus!
