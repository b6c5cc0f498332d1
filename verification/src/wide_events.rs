//! Wide events: one flat record per recorded request.
use crate::json::Json;
use crate::json::JsonModel;
use crate::numbers;
use crate::numbers::decimal_text;
use crate::numbers::signed_decimal_text;
use crate::ordmap::OrdMap;
use crate::text;
use crate::text::has_suffix;
use crate::timestamps;
use crate::timestamps::Timestamp;
use vstd::prelude::*;
use vstd::string::StringExecFns;

verus! {

/// The file that events are appended to.
pub const WIDE_EVENTS_FILE: &'static str = "wide_events.jsonl";

/// An event.
pub struct WideEvent {
    pub id: String,
    pub ts: String,
    pub event_type: String,
    pub service_id: Option<String>,
    /// The attributes by name.
    pub attrs: OrdMap<String, Json>,
}

#[verifier::ext_equal]
pub struct WideEventView {
    pub id: Seq<char>,
    pub ts: Seq<char>,
    pub event_type: Seq<char>,
    pub service_id: Option<Seq<char>>,
    pub attrs: Map<Seq<char>, JsonModel>,
}

impl DeepView for WideEvent {
    type V = WideEventView;

    open spec fn deep_view(&self) -> WideEventView {
        WideEventView {
            id: self.id@,
            ts: self.ts@,
            event_type: self.event_type@,
            service_id: self.service_id.deep_view(),
            attrs: self.attrs.deep_view(),
        }
    }
}

/// The attributes of a recorded request.
pub open spec fn request_attrs(
    service_id: Option<Seq<char>>,
    method: Seq<char>,
    uri_pattern: Seq<char>,
    status: u16,
    latency_ms: u64,
    workload_class: Seq<char>,
) -> Map<Seq<char>, JsonModel> {
    let attrs = Map::<Seq<char>, JsonModel>::empty().insert(
        "method"@,
        JsonModel::Str(method),
    ).insert("uri_pattern"@, JsonModel::Str(uri_pattern)).insert(
        "status"@,
        JsonModel::Number(numbers::decimal(status as nat)),
    ).insert("latency_ms"@, JsonModel::Number(numbers::decimal(latency_ms as nat))).insert(
        "workload_class"@,
        JsonModel::Str(workload_class),
    );
    match service_id {
        Some(svc) => attrs.insert("service_id"@, JsonModel::Str(svc)),
        None => attrs,
    }
}

/// The id of the event that is the `n`th of the process.
pub open spec fn event_id_text(millis: int, n: u64) -> Seq<char> {
    "we_"@ + numbers::signed_decimal(millis) + "_"@ + numbers::decimal(n as nat)
}

/// The id of the event that is the `n`th of the process.
pub fn event_id(millis: i64, n: u64) -> (r: String)
    ensures
        r@ == event_id_text(millis as int, n),
{
    let mut s = "we_".to_owned();
    s.append(signed_decimal_text(millis).as_str());
    s.append("_");
    s.append(decimal_text(n).as_str());
    s
}

fn set_attr(attrs: &mut OrdMap<String, Json>, name: &str, value: Json)
    ensures
        final(attrs).deep_view() == old(attrs).deep_view().insert(name@, value.model()),
{
    let ghost before = attrs.deep_view();
    let ghost v = value.model();
    attrs.insert(name.to_owned(), value);
    assert(attrs.deep_view() =~= before.insert(name@, v));
}

/// The event of a recorded request, the `n`th event of the process, at `now`.
pub open spec fn recorded_event(
    service_id: Option<Seq<char>>,
    method: Seq<char>,
    uri_pattern: Seq<char>,
    status: u16,
    latency_ms: u64,
    workload_class: Seq<char>,
    n: u64,
    now: Timestamp,
) -> WideEventView {
    WideEventView {
        id: event_id_text(timestamps::millis_of(now), n),
        ts: timestamps::rfc3339_text(now.secs, now.nanos),
        event_type: "request_recorded"@,
        service_id,
        attrs: request_attrs(
            service_id,
            method,
            uri_pattern,
            status,
            latency_ms,
            workload_class,
        ),
    }
}

impl WideEvent {
    /// The event of a recorded request, the `n`th event of the process, at `now`.
    pub fn request_recorded_at(
        service_id: Option<&str>,
        method: &str,
        uri_pattern: &str,
        status: u16,
        latency_ms: u64,
        workload_class: &str,
        n: u64,
        now: Timestamp,
    ) -> (r: Self)
        requires
            timestamps::in_calendar(now),
        ensures
            r.deep_view() == recorded_event(
                service_id.deep_view(),
                method@,
                uri_pattern@,
                status,
                latency_ms,
                workload_class@,
                n,
                now,
            ),
    {
        let mut attrs: OrdMap<String, Json> = OrdMap::new();
        assert(attrs.deep_view() =~= Map::empty());
        set_attr(&mut attrs, "method", Json::Str(method.to_owned()));
        set_attr(&mut attrs, "uri_pattern", Json::Str(uri_pattern.to_owned()));
        set_attr(&mut attrs, "status", Json::from_u64(status as u64));
        set_attr(&mut attrs, "latency_ms", Json::from_u64(latency_ms));
        set_attr(&mut attrs, "workload_class", Json::Str(workload_class.to_owned()));
        let mut service: Option<String> = None;
        if let Some(svc) = service_id {
            set_attr(&mut attrs, "service_id", Json::Str(svc.to_owned()));
            service = Some(svc.to_owned());
        }
        WideEvent {
            id: event_id(now.to_millis(), n),
            ts: now.to_rfc3339(),
            event_type: "request_recorded".to_owned(),
            service_id: service,
            attrs,
        }
    }

    /// The event of a recorded request, the `n`th event of the process, at the time on
    /// the system clock.
    pub fn request_recorded(
        service_id: Option<&str>,
        method: &str,
        uri_pattern: &str,
        status: u16,
        latency_ms: u64,
        workload_class: &str,
        n: u64,
    ) -> (r: Self)
        ensures
            exists|now: Timestamp|
                timestamps::in_calendar(now) && r.deep_view() == #[trigger] recorded_event(
                    service_id.deep_view(),
                    method@,
                    uri_pattern@,
                    status,
                    latency_ms,
                    workload_class@,
                    n,
                    now,
                ),
    {
        let now = Timestamp::now();
        WideEvent::request_recorded_at(
            service_id,
            method,
            uri_pattern,
            status,
            latency_ms,
            workload_class,
            n,
            now,
        )
    }
}

/// Two events of a process have different ids, whenever they occur.
pub proof fn law_event_ids_differ(millis1: int, n1: u64, millis2: int, n2: u64)
    requires
        n1 != n2,
    ensures
        event_id_text(millis1, n1) != event_id_text(millis2, n2),
{
    reveal_strlit("_");
    assert("_"@ =~= seq!['_']);
    let d1 = numbers::decimal(n1 as nat);
    let d2 = numbers::decimal(n2 as nat);
    let a = "we_"@ + numbers::signed_decimal(millis1);
    let b = "we_"@ + numbers::signed_decimal(millis2);
    let s = event_id_text(millis1, n1);
    let t = event_id_text(millis2, n2);
    numbers::lemma_decimal_lacks(n1 as nat, '_');
    numbers::lemma_decimal_lacks(n2 as nat, '_');
    if s == t {
        assert(s == a + seq!['_'] + d1);
        assert(t == b + seq!['_'] + d2);
        if d1.len() < d2.len() {
            let k = s.len() - d1.len() - 1;
            assert(s[k] == '_');
            assert(t[k] == d2[d2.len() - d1.len() - 1]);
        } else if d2.len() < d1.len() {
            let k = t.len() - d2.len() - 1;
            assert(t[k] == '_');
            assert(s[k] == d1[d1.len() - d2.len() - 1]);
        } else {
            assert(s.skip(s.len() - d1.len()) =~= d1);
            assert(t.skip(t.len() - d2.len()) =~= d2);
        }
        numbers::law_decimal_injective(n1 as nat, n2 as nat);
    }
}

/// The file that events are appended to, in `dir`.
pub fn wide_events_path(dir: &str) -> (r: String)
    ensures
        r@ == events_path_in(dir@),
{
    let mut s = dir.to_owned();
    if !dir.is_empty() && !has_suffix(dir, "/") {
        s.append("/");
    }
    s.append(WIDE_EVENTS_FILE);
    s
}

/// The event of a recorded request says what was recorded: its method, the pattern of its
/// URI, the status, the latency and the class of the sender, and the service if it has
/// one; nothing else.
pub proof fn law_event_says_what_was_recorded(
    service_id: Option<Seq<char>>,
    method: Seq<char>,
    uri_pattern: Seq<char>,
    status: u16,
    latency_ms: u64,
    workload_class: Seq<char>,
    n: u64,
    now: Timestamp,
)
    ensures
        ({
            let e = recorded_event(
                service_id,
                method,
                uri_pattern,
                status,
                latency_ms,
                workload_class,
                n,
                now,
            );
            &&& e.event_type == "request_recorded"@
            &&& e.service_id == service_id
            &&& e.attrs.contains_key("method"@) && e.attrs["method"@] == JsonModel::Str(method)
            &&& e.attrs.contains_key("uri_pattern"@) && e.attrs["uri_pattern"@] == JsonModel::Str(
                uri_pattern,
            )
            &&& e.attrs.contains_key("status"@) && e.attrs["status"@] == JsonModel::Number(
                numbers::decimal(status as nat),
            )
            &&& e.attrs.contains_key("latency_ms"@) && e.attrs["latency_ms"@] == JsonModel::Number(
                numbers::decimal(latency_ms as nat),
            )
            &&& e.attrs.contains_key("workload_class"@) && e.attrs["workload_class"@]
                == JsonModel::Str(workload_class)
            &&& service_id is Some ==> e.attrs.contains_key("service_id"@)
                && e.attrs["service_id"@] == JsonModel::Str(service_id->0)
            &&& service_id is None ==> !e.attrs.contains_key("service_id"@)
            &&& forall|k: Seq<char>| #[trigger]
                e.attrs.contains_key(k) ==> k == "method"@ || k == "uri_pattern"@ || k
                    == "status"@ || k == "latency_ms"@ || k == "workload_class"@ || k
                    == "service_id"@
        }),
{
    reveal_strlit("method");
    reveal_strlit("uri_pattern");
    reveal_strlit("status");
    reveal_strlit("latency_ms");
    reveal_strlit("workload_class");
    reveal_strlit("service_id");
    assert("method"@.len() == 6 && "method"@[0] == 'm');
    assert("uri_pattern"@.len() == 11);
    assert("status"@.len() == 6 && "status"@[0] == 's');
    assert("latency_ms"@.len() == 10 && "latency_ms"@[0] == 'l');
    assert("workload_class"@.len() == 14);
    assert("service_id"@.len() == 10 && "service_id"@[0] == 's');
}

/// The file that events are appended to, in `dir`.
pub open spec fn events_path_in(dir: Seq<char>) -> Seq<char> {
    if dir.len() == 0 || text::ends_with(dir, "/"@) {
        dir + WIDE_EVENTS_FILE@
    } else {
        dir + "/"@ + WIDE_EVENTS_FILE@
    }
}

/// Events go to `wide_events.jsonl` in the directory, with one slash between them.
pub proof fn law_where_events_go(dir: Seq<char>)
    ensures
        dir.len() > 0 && dir.last() != '/' ==> events_path_in(dir) == dir + "/"@
            + "wide_events.jsonl"@,
        events_path_in(dir + "/"@) == dir + "/"@ + "wide_events.jsonl"@,
        events_path_in(Seq::empty()) == "wide_events.jsonl"@,
{
    let slash = "/"@;
    assert(slash.len() == 1 && slash[0] == '/') by {
        reveal_strlit("/");
    }
    let whole = dir + slash;
    assert(text::ends_with(whole, slash)) by {
        assert(whole.subrange(whole.len() - 1, whole.len() as int) =~= slash);
    }
    if dir.len() > 0 && dir.last() != '/' && text::ends_with(dir, slash) {
        assert(dir.subrange(dir.len() - 1, dir.len() as int)[0] == dir.last());
    }
    assert(Seq::<char>::empty() + "wide_events.jsonl"@ =~= "wide_events.jsonl"@);
}

} // verus!
