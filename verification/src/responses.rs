//! Responses, as plain values: what the proxy sends for each outcome.
use crate::chaos::DrawnError;
use crate::chaos::DrawnErrorView;
use crate::chars;
use crate::dup::Dup;
use crate::headers;
use crate::headers::is_hop_by_hop;
use crate::headers::normal_name;
use crate::headers::status_ok;
use crate::headers::value_bytes_ok;
use crate::headers::value_text_ok;
use crate::ordmap;
use crate::ordmap::OrdMap;
use crate::text::same_text;
use crate::types::RuntimeConfig;
use crate::types::RuntimeConfigView;
use vstd::prelude::*;
use vstd::string::StrSliceExecFns;

verus! {

/// A response to send. Header names are in lower case. The order of headers of
/// different names has no meaning.
pub struct ResponsePlan {
    pub status: u16,
    pub headers: Vec<(String, String)>,
    pub body: Vec<u8>,
    /// The milliseconds to wait before sending.
    pub delay_ms: u64,
}

#[verifier::ext_equal]
pub struct ResponsePlanView {
    pub status: u16,
    pub headers: Seq<(Seq<char>, Seq<char>)>,
    pub body: Seq<u8>,
    pub delay_ms: u64,
}

impl DeepView for ResponsePlan {
    type V = ResponsePlanView;

    open spec fn deep_view(&self) -> ResponsePlanView {
        ResponsePlanView {
            status: self.status,
            headers: self.headers.deep_view(),
            body: self.body@,
            delay_ms: self.delay_ms,
        }
    }
}

impl ResponsePlan {
    /// The value of the first header of this name, which is in lower case.
    pub fn header(&self, name: &str) -> (r: Option<String>)
        ensures
            r.deep_view() == plan_header(self.deep_view().headers, name@),
    {
        let ghost all = self.headers.deep_view();
        let mut i: usize = 0;
        assert(all.skip(0) =~= all);
        while i < self.headers.len()
            invariant
                i <= self.headers@.len(),
                all == self.headers.deep_view(),
                plan_header(all, name@) == plan_header(all.skip(i as int), name@),
            decreases self.headers@.len() - i,
        {
            proof {
                let t = all.skip(i as int);
                assert(t[0] == self.headers@[i as int].deep_view());
                assert(t.drop_first() =~= all.skip(i + 1));
            }
            if same_text(self.headers[i].0.as_str(), name) {
                return Some(self.headers[i].1.dup());
            }
            i += 1;
        }
        None
    }
}

/// The value of the first header of this name.
pub open spec fn plan_header(hs: Seq<(Seq<char>, Seq<char>)>, name: Seq<char>) -> Option<Seq<char>>
    decreases hs.len(),
{
    if hs.len() == 0 {
        None
    } else if hs[0].0 == name {
        Some(hs[0].1)
    } else {
        plan_header(hs.drop_first(), name)
    }
}

// ─── Recorded and forwarded responses ────────────────────────────────────────

/// A header that a response hands on: not about one connection, and with a value
/// that is one.
pub open spec fn handed_on(h: (Seq<char>, Seq<char>)) -> bool {
    !headers::hop_by_hop(chars::lowercase(h.0)) && headers::valid_value(h.1)
}

/// The first `n` headers that are handed on, names in lower case.
pub open spec fn kept_headers(hs: Seq<(Seq<char>, Seq<char>)>, n: nat) -> Seq<
    (Seq<char>, Seq<char>),
>
    decreases n,
{
    if n == 0 || n > hs.len() {
        Seq::empty()
    } else {
        let before = kept_headers(hs, (n - 1) as nat);
        let h = hs[n - 1];
        if handed_on(h) {
            before.push((chars::ascii_lower(h.0), h.1))
        } else {
            before
        }
    }
}

/// Every header that is handed on has a name that is one.
pub open spec fn names_ok(hs: Seq<(Seq<char>, Seq<char>)>) -> bool {
    forall|i: int| 0 <= i < hs.len() && handed_on(#[trigger] hs[i]) ==> headers::valid_name(hs[i].0)
}

/// The response with this status, these headers and this body. A status that is none
/// becomes 200. Headers about one connection and headers with an invalid value are
/// left out. A header with an invalid name leaves an empty 200 response.
pub open spec fn built_response(
    status: u16,
    hs: Map<Seq<char>, Seq<char>>,
    body: Seq<u8>,
) -> ResponsePlanView {
    let pairs = ordmap::sorted_pairs::<String, Seq<char>>(hs);
    if names_ok(pairs) {
        ResponsePlanView {
            status: if headers::valid_status(status) {
                status
            } else {
                200
            },
            headers: kept_headers(pairs, pairs.len()),
            body,
            delay_ms: 0,
        }
    } else {
        ResponsePlanView { status: 200, headers: Seq::empty(), body: Seq::empty(), delay_ms: 0 }
    }
}

/// The entries of a text map in key order, as text.
proof fn lemma_text_pairs(m: OrdMap<String, String>)
    requires
        ordmap::ascending::<String, String>(m.pairs()),
    ensures
        ordmap::sorted_pairs::<String, Seq<char>>(m.deep_view()) == ordmap::deep_pairs(m.pairs()),
{
    ordmap::lemma_deep_pairs::<String, String>(m.pairs());
    ordmap::lemma_sorted_pairs::<String, Seq<char>>(ordmap::deep_pairs(m.pairs()));
}

/// The response with this status, these headers and this body.
pub fn build_response(status: u16, hs: &OrdMap<String, String>, body: Vec<u8>) -> (r: ResponsePlan)
    ensures
        r.deep_view() == built_response(status, hs.deep_view(), body@),
{
    let code: u16 = if status_ok(status) {
        status
    } else {
        200
    };
    let n = hs.len();
    let ghost pairs = ordmap::sorted_pairs::<String, Seq<char>>(hs.deep_view());
    proof {
        lemma_text_pairs(*hs);
    }
    let mut kept: Vec<(String, String)> = Vec::new();
    let mut i: usize = 0;
    assert(kept.deep_view() =~= Seq::empty());
    while i < n
        invariant
            i <= n,
            n == hs.pairs().len(),
            n == pairs.len(),
            pairs == ordmap::sorted_pairs::<String, Seq<char>>(hs.deep_view()),
            pairs == ordmap::deep_pairs(hs.pairs()),
            kept.deep_view() == kept_headers(pairs, i as nat),
            forall|j: int|
                0 <= j < i && handed_on(#[trigger] pairs[j]) ==> headers::valid_name(pairs[j].0),
        decreases n - i,
    {
        let k = hs.key_at(i);
        let v = hs.value_at(i);
        assert(pairs[i as int] == (k@, v@));
        let folded = k.as_str().to_lowercase();
        if !is_hop_by_hop(folded.as_str()) {
            if value_bytes_ok(v.as_str()) {
                match normal_name(k.as_str()) {
                    Some(name) => {
                        let ghost before = kept.deep_view();
                        kept.push((name, v.clone()));
                        assert(kept.deep_view() =~= before.push((chars::ascii_lower(k@), v@)));
                    },
                    None => {
                        assert(!names_ok(pairs));
                        let r = ResponsePlan {
                            status: 200,
                            headers: Vec::new(),
                            body: Vec::new(),
                            delay_ms: 0,
                        };
                        assert(r.headers.deep_view() =~= Seq::empty());
                        return r;
                    },
                }
            }
        }
        i += 1;
    }
    ResponsePlan { status: code, headers: kept, body, delay_ms: 0 }
}

// ─── Mock responses ──────────────────────────────────────────────────────────

/// The longest wait before a mock is served, in milliseconds.
pub const MAX_MOCK_DELAY_MS: u64 = 10_000;

/// The headers without those of this name.
pub open spec fn without_header(hs: Seq<(Seq<char>, Seq<char>)>, name: Seq<char>) -> Seq<
    (Seq<char>, Seq<char>),
>
    decreases hs.len(),
{
    if hs.len() == 0 {
        Seq::empty()
    } else if hs.last().0 == name {
        without_header(hs.drop_last(), name)
    } else {
        without_header(hs.drop_last(), name).push(hs.last())
    }
}

/// The headers with this one in place of all of its name.
pub open spec fn with_header(
    hs: Seq<(Seq<char>, Seq<char>)>,
    name: Seq<char>,
    value: Seq<char>,
) -> Seq<(Seq<char>, Seq<char>)> {
    without_header(hs, name).push((name, value))
}

/// The response of a mock: the recorded one after the recorded wait, which is cut to
/// the longest, with one more header. A value that is none becomes `true`.
pub open spec fn mock_response(
    status: u16,
    hs: Map<Seq<char>, Seq<char>>,
    body: Seq<u8>,
    latency_ms: u64,
    extra_key: Seq<char>,
    extra_val: Seq<char>,
) -> ResponsePlanView {
    let built = built_response(status, hs, body);
    ResponsePlanView {
        status: built.status,
        headers: with_header(
            built.headers,
            chars::ascii_lower(extra_key),
            if headers::valid_value(extra_val) {
                extra_val
            } else {
                "true"@
            },
        ),
        body: built.body,
        delay_ms: if latency_ms < MAX_MOCK_DELAY_MS {
            latency_ms
        } else {
            MAX_MOCK_DELAY_MS
        },
    }
}

fn set_header(hs: &Vec<(String, String)>, name: String, value: String) -> (r: Vec<(String, String)>)
    ensures
        r.deep_view() == with_header(hs.deep_view(), name@, value@),
{
    let ghost all = hs.deep_view();
    let mut out: Vec<(String, String)> = Vec::new();
    let mut i: usize = 0;
    assert(out.deep_view() =~= Seq::empty());
    assert(all.take(0) =~= Seq::empty());
    while i < hs.len()
        invariant
            i <= hs@.len(),
            all == hs.deep_view(),
            out.deep_view() == without_header(all.take(i as int), name@),
        decreases hs@.len() - i,
    {
        let ghost before = out.deep_view();
        assert(all.take(i + 1).drop_last() =~= all.take(i as int));
        assert(all.take(i + 1).last() == hs@[i as int].deep_view());
        if !same_text(hs[i].0.as_str(), name.as_str()) {
            out.push((hs[i].0.clone(), hs[i].1.clone()));
            assert(out.deep_view() =~= before.push(all[i as int]));
        }
        i += 1;
    }
    assert(all.take(all.len() as int) =~= all);
    let ghost before = out.deep_view();
    let ghost last = (name@, value@);
    out.push((name, value));
    assert(out.deep_view() =~= before.push(last));
    out
}

/// The response of a mock.
pub fn serve_mock_response(
    status: u16,
    hs: &OrdMap<String, String>,
    body: Vec<u8>,
    latency_ms: u64,
    extra_key: &str,
    extra_val: &str,
) -> (r: ResponsePlan)
    requires
        headers::valid_name(extra_key@),
    ensures
        r.deep_view() == mock_response(
            status,
            hs.deep_view(),
            body@,
            latency_ms,
            extra_key@,
            extra_val@,
        ),
{
    let built = build_response(status, hs, body);
    let name = match normal_name(extra_key) {
        Some(n) => n,
        None => String::new(),
    };
    let value = if value_text_ok(extra_val) {
        extra_val.to_owned()
    } else {
        "true".to_owned()
    };
    ResponsePlan {
        status: built.status,
        headers: set_header(&built.headers, name, value),
        body: built.body,
        delay_ms: if latency_ms < MAX_MOCK_DELAY_MS {
            latency_ms
        } else {
            MAX_MOCK_DELAY_MS
        },
    }
}

/// A mock is never served later than the longest wait, and never with two headers
/// that tell its source.
pub proof fn law_mock_response(
    status: u16,
    hs: Map<Seq<char>, Seq<char>>,
    body: Seq<u8>,
    latency_ms: u64,
    extra_key: Seq<char>,
    extra_val: Seq<char>,
)
    ensures
        ({
            let r = mock_response(status, hs, body, latency_ms, extra_key, extra_val);
            &&& r.delay_ms <= MAX_MOCK_DELAY_MS
            &&& r.delay_ms <= latency_ms
            &&& headers::valid_status(r.status)
            &&& r.headers.len() > 0
            &&& r.headers.last().0 == chars::ascii_lower(extra_key)
            &&& forall|i: int|
                0 <= i < r.headers.len() - 1 ==> (#[trigger] r.headers[i]).0 != chars::ascii_lower(
                    extra_key,
                )
        }),
{
    let built = built_response(status, hs, body);
    let name = chars::ascii_lower(extra_key);
    lemma_without_header(built.headers, name);
    let r = mock_response(status, hs, body, latency_ms, extra_key, extra_val);
    assert forall|i: int| 0 <= i < r.headers.len() - 1 implies (#[trigger] r.headers[i]).0
        != name by {
        assert(r.headers[i] == without_header(built.headers, name)[i]);
    }
}

proof fn lemma_without_header(hs: Seq<(Seq<char>, Seq<char>)>, name: Seq<char>)
    ensures
        forall|i: int|
            0 <= i < without_header(hs, name).len() ==> (#[trigger] without_header(hs, name)[i]).0
                != name,
    decreases hs.len(),
{
    if hs.len() > 0 {
        let before = without_header(hs.drop_last(), name);
        lemma_without_header(hs.drop_last(), name);
        assert forall|i: int| 0 <= i < without_header(hs, name).len() implies (
        #[trigger] without_header(hs, name)[i]).0 != name by {
            if i < before.len() {
                assert(without_header(hs, name)[i] == before[i]);
            }
        }
    }
}

/// No response hands on a header about one connection, or one with an invalid value.
pub proof fn law_no_hop_by_hop(status: u16, hs: Map<Seq<char>, Seq<char>>, body: Seq<u8>, i: int)
    requires
        0 <= i < built_response(status, hs, body).headers.len(),
    ensures
        ({
            let h = built_response(status, hs, body).headers[i];
            &&& !headers::hop_by_hop(h.0)
            &&& headers::valid_value(h.1)
        }),
{
    let pairs = ordmap::sorted_pairs::<String, Seq<char>>(hs);
    lemma_kept_headers(pairs, pairs.len());
}

proof fn lemma_kept_headers(hs: Seq<(Seq<char>, Seq<char>)>, n: nat)
    requires
        names_ok(hs),
        n <= hs.len(),
    ensures
        forall|i: int|
            0 <= i < kept_headers(hs, n).len() ==> !headers::hop_by_hop(
                (#[trigger] kept_headers(hs, n)[i]).0,
            ) && headers::valid_value(kept_headers(hs, n)[i].1),
    decreases n,
{
    if n > 0 {
        lemma_kept_headers(hs, (n - 1) as nat);
        let h = hs[n - 1];
        if handed_on(h) {
            assert(headers::valid_name(h.0));
            assert(vstd::utf8::is_ascii_chars(h.0));
            assert(chars::lowercase(h.0) == chars::ascii_lower(h.0));
        }
        let before = kept_headers(hs, (n - 1) as nat);
        assert forall|i: int| 0 <= i < kept_headers(hs, n).len() implies !headers::hop_by_hop(
            (#[trigger] kept_headers(hs, n)[i]).0,
        ) && headers::valid_value(kept_headers(hs, n)[i].1) by {
            if i < before.len() {
                assert(kept_headers(hs, n)[i] == before[i]);
            }
        }
    }
}

proof fn lemma_kept_has(hs: Seq<(Seq<char>, Seq<char>)>, n: nat, i: int)
    requires
        0 <= i < n <= hs.len(),
        handed_on(hs[i]),
    ensures
        kept_headers(hs, n).contains((chars::ascii_lower(hs[i].0), hs[i].1)),
    decreases n,
{
    let h = (chars::ascii_lower(hs[i].0), hs[i].1);
    let kept = kept_headers(hs, n);
    if i == n - 1 {
        assert(kept[kept.len() - 1] == h);
    } else {
        let before = kept_headers(hs, (n - 1) as nat);
        lemma_kept_has(hs, (n - 1) as nat, i);
        let j = before.index_of(h);
        assert(kept[j] == h);
    }
}

proof fn lemma_without_header_keeps(
    hs: Seq<(Seq<char>, Seq<char>)>,
    name: Seq<char>,
    h: (Seq<char>, Seq<char>),
)
    requires
        hs.contains(h),
        h.0 != name,
    ensures
        without_header(hs, name).contains(h),
    decreases hs.len(),
{
    let r = without_header(hs, name);
    let i = hs.index_of(h);
    if i == hs.len() - 1 {
        assert(r[r.len() - 1] == h);
    } else {
        let before = without_header(hs.drop_last(), name);
        assert(hs.drop_last()[i] == h);
        lemma_without_header_keeps(hs.drop_last(), name, h);
        let j = before.index_of(h);
        assert(r[j] == h);
    }
}

pub proof fn lemma_without_header_has(hs: Seq<(Seq<char>, Seq<char>)>, name: Seq<char>, i: int)
    requires
        0 <= i < without_header(hs, name).len(),
    ensures
        hs.contains(without_header(hs, name)[i]),
    decreases hs.len(),
{
    let before = without_header(hs.drop_last(), name);
    let r = without_header(hs, name);
    if i < before.len() {
        lemma_without_header_has(hs.drop_last(), name, i);
        let j = hs.drop_last().index_of(before[i]);
        assert(hs[j] == r[i]);
    } else {
        assert(hs[hs.len() - 1] == r[i]);
    }
}

/// A mock is served as it was recorded: with the recorded status and body, and with
/// every recorded header but those about one connection, those with an invalid value
/// and one that is named like the added header. Left out are recordings with a status
/// or a header name that is none.
pub proof fn law_mock_is_served_as_recorded(
    status: u16,
    hs: Map<Seq<char>, Seq<char>>,
    body: Seq<u8>,
    latency_ms: u64,
    extra_key: Seq<char>,
    extra_val: Seq<char>,
)
    requires
        hs.dom().finite(),
        headers::valid_status(status),
        forall|k: Seq<char>| #[trigger] hs.contains_key(k) ==> headers::valid_name(k),
    ensures
        ({
            let r = mock_response(status, hs, body, latency_ms, extra_key, extra_val);
            &&& r.status == status
            &&& r.body == body
            &&& forall|k: Seq<char>| #[trigger]
                hs.contains_key(k) && handed_on((k, hs[k])) && chars::ascii_lower(k)
                    != chars::ascii_lower(extra_key) ==> r.headers.contains(
                    (chars::ascii_lower(k), hs[k]),
                )
        }),
{
    let pairs = ordmap::sorted_pairs::<String, Seq<char>>(hs);
    ordmap::lemma_finite_map_has_pairs::<String, Seq<char>>(hs);
    ordmap::lemma_pairs_map::<String, Seq<char>>(pairs);
    let built = built_response(status, hs, body);
    let name = chars::ascii_lower(extra_key);
    let r = mock_response(status, hs, body, latency_ms, extra_key, extra_val);
    assert(names_ok(pairs)) by {
        assert forall|i: int| 0 <= i < pairs.len() && handed_on(
            #[trigger] pairs[i],
        ) implies headers::valid_name(pairs[i].0) by {
            assert(hs.contains_key(pairs[i].0));
        }
    }
    assert forall|k: Seq<char>| #[trigger]
        hs.contains_key(k) && handed_on((k, hs[k])) && chars::ascii_lower(k)
            != name implies r.headers.contains((chars::ascii_lower(k), hs[k])) by {
        let h = (chars::ascii_lower(k), hs[k]);
        assert(ordmap::pairs_map(pairs).contains_key(k));
        let i = choose|i: int| 0 <= i < pairs.len() && (#[trigger] pairs[i]).0 == k;
        assert(pairs[i] == (k, hs[k]));
        lemma_kept_has(pairs, pairs.len(), i);
        lemma_without_header_keeps(built.headers, name, h);
        let others = without_header(built.headers, name);
        let j = others.index_of(h);
        assert(r.headers[j] == h);
    }
}

/// A header is handed on unless it is about one connection, which its name in lower case
/// tells, or its value holds a control character other than the tab.
pub proof fn law_handed_on(name: Seq<char>, value: Seq<char>)
    ensures
        handed_on((name, value)) <==> {
            &&& chars::lowercase(name) != "transfer-encoding"@
            &&& chars::lowercase(name) != "connection"@
            &&& chars::lowercase(name) != "keep-alive"@
            &&& forall|i: int|
                0 <= i < value.len() ==> #[trigger] value[i] == '\t' || (' ' <= value[i] && value[i]
                    != '\u{7f}')
        },
{
    if headers::valid_value(value) {
        assert forall|i: int| 0 <= i < value.len() implies #[trigger] value[i] == '\t' || (' '
            <= value[i] && value[i] != '\u{7f}') by {
            assert(headers::value_char(value[i]));
        }
    }
}

/// The header is one of `hs` that is handed on, its name in lower case.
pub open spec fn handed_from(hs: Map<Seq<char>, Seq<char>>, h: (Seq<char>, Seq<char>)) -> bool {
    exists|k: Seq<char>| #[trigger]
        hs.contains_key(k) && handed_on((k, hs[k])) && h == (chars::ascii_lower(k), hs[k])
}

/// A reply is handed on as it came: with its status, its body, without delay, and with
/// exactly the headers that are handed on, names in lower case. Left out are replies with
/// a status or a header name that is none.
pub proof fn law_reply_is_handed_on(status: u16, hs: Map<Seq<char>, Seq<char>>, body: Seq<u8>)
    requires
        hs.dom().finite(),
        100 <= status <= 999,
        forall|k: Seq<char>| #[trigger] hs.contains_key(k) ==> headers::valid_name(k),
    ensures
        ({
            let r = built_response(status, hs, body);
            &&& r.status == status
            &&& r.body == body
            &&& r.delay_ms == 0
            &&& forall|k: Seq<char>| #[trigger]
                hs.contains_key(k) && handed_on((k, hs[k])) ==> r.headers.contains(
                    (chars::ascii_lower(k), hs[k]),
                )
            &&& forall|i: int|
                0 <= i < r.headers.len() ==> handed_from(hs, #[trigger] r.headers[i])
        }),
{
    let pairs = ordmap::sorted_pairs::<String, Seq<char>>(hs);
    ordmap::lemma_finite_map_has_pairs::<String, Seq<char>>(hs);
    ordmap::lemma_pairs_map::<String, Seq<char>>(pairs);
    let r = built_response(status, hs, body);
    assert(names_ok(pairs)) by {
        assert forall|i: int| 0 <= i < pairs.len() && handed_on(
            #[trigger] pairs[i],
        ) implies headers::valid_name(pairs[i].0) by {
            assert(hs.contains_key(pairs[i].0));
        }
    }
    assert forall|k: Seq<char>| #[trigger] hs.contains_key(k) && handed_on(
        (k, hs[k]),
    ) implies r.headers.contains((chars::ascii_lower(k), hs[k])) by {
        assert(ordmap::pairs_map(pairs).contains_key(k));
        let i = choose|i: int| 0 <= i < pairs.len() && (#[trigger] pairs[i]).0 == k;
        assert(pairs[i] == (k, hs[k]));
        lemma_kept_has(pairs, pairs.len(), i);
    }
    assert forall|i: int| 0 <= i < r.headers.len() implies handed_from(
        hs,
        #[trigger] r.headers[i],
    ) by {
        lemma_kept_come_from(pairs, pairs.len(), i);
        let j = choose|j: int|
            0 <= j < pairs.len() && handed_on(#[trigger] pairs[j]) && kept_headers(
                pairs,
                pairs.len(),
            )[i] == (chars::ascii_lower(pairs[j].0), pairs[j].1);
        assert(hs.contains_key(pairs[j].0));
        assert(hs[pairs[j].0] == pairs[j].1);
    }
}

proof fn lemma_kept_come_from(hs: Seq<(Seq<char>, Seq<char>)>, n: nat, i: int)
    requires
        n <= hs.len(),
        0 <= i < kept_headers(hs, n).len(),
    ensures
        exists|j: int|
            0 <= j < n && handed_on(#[trigger] hs[j]) && kept_headers(hs, n)[i] == (
                chars::ascii_lower(hs[j].0),
                hs[j].1,
            ),
    decreases n,
{
    let before = kept_headers(hs, (n - 1) as nat);
    let h = hs[n - 1];
    if i < before.len() {
        lemma_kept_come_from(hs, (n - 1) as nat, i);
        let j = choose|j: int|
            0 <= j < n - 1 && handed_on(#[trigger] hs[j]) && before[i] == (
                chars::ascii_lower(hs[j].0),
                hs[j].1,
            );
        assert(handed_on(hs[j]));
    } else {
        assert(handed_on(h));
    }
}

/// A status that is none is sent as 200; with a header to hand on whose name is none
/// nothing but an empty 200 response is sent.
pub proof fn law_what_cannot_be_sent(
    status: u16,
    hs: Map<Seq<char>, Seq<char>>,
    body: Seq<u8>,
    name: Seq<char>,
)
    requires
        hs.dom().finite(),
    ensures
        !(100 <= status <= 999) ==> built_response(status, hs, body).status == 200,
        hs.contains_key(name) && handed_on((name, hs[name])) && !headers::valid_name(name)
            ==> built_response(status, hs, body).status == 200 && built_response(
            status,
            hs,
            body,
        ).body.len() == 0 && built_response(status, hs, body).headers.len() == 0,
{
    let pairs = ordmap::sorted_pairs::<String, Seq<char>>(hs);
    ordmap::lemma_finite_map_has_pairs::<String, Seq<char>>(hs);
    ordmap::lemma_pairs_map::<String, Seq<char>>(pairs);
    if hs.contains_key(name) && handed_on((name, hs[name])) && !headers::valid_name(name) {
        assert(ordmap::pairs_map(pairs).contains_key(name));
        let i = choose|i: int| 0 <= i < pairs.len() && (#[trigger] pairs[i]).0 == name;
        assert(pairs[i] == (name, hs[name]));
    }
}

/// A mock is served after the recorded wait, cut to ten seconds.
pub proof fn law_mock_waits(
    status: u16,
    hs: Map<Seq<char>, Seq<char>>,
    body: Seq<u8>,
    latency_ms: u64,
    extra_key: Seq<char>,
    extra_val: Seq<char>,
)
    ensures
        ({
            let r = mock_response(status, hs, body, latency_ms, extra_key, extra_val);
            &&& latency_ms <= 10_000 ==> r.delay_ms == latency_ms
            &&& latency_ms > 10_000 ==> r.delay_ms == 10_000
        }),
{
}

// ─── Fixed responses ─────────────────────────────────────────────────────────

fn header_pair(name: &str, value: &str) -> (r: (String, String))
    ensures
        r.deep_view() == (name@, value@),
{
    (name.to_owned(), value.to_owned())
}

/// The response to a request that no mock matches: the configured status, 404 if it
/// is none, and the configured body.
pub open spec fn missed(config: RuntimeConfigView) -> ResponsePlanView {
    ResponsePlanView {
        status: if headers::valid_status(config.unmatched_status) {
            config.unmatched_status
        } else {
            404
        },
        headers: seq![("content-type"@, "application/json"@), ("x-ghost-miss"@, "true"@)],
        body: vstd::utf8::encode_utf8(config.unmatched_body),
        delay_ms: 0,
    }
}

/// The response to a request that no mock matches.
pub fn miss_response(config: &RuntimeConfig) -> (r: ResponsePlan)
    ensures
        r.deep_view() == missed(config.deep_view()),
{
    let status: u16 = if status_ok(config.unmatched_status) {
        config.unmatched_status
    } else {
        404
    };
    let hs = vec![
        header_pair("content-type", "application/json"),
        header_pair("x-ghost-miss", "true"),
    ];
    assert(hs.deep_view() =~= seq![
        ("content-type"@, "application/json"@),
        ("x-ghost-miss"@, "true"@),
    ]);
    ResponsePlan {
        status,
        headers: hs,
        body: config.unmatched_body.as_str().as_bytes_vec(),
        delay_ms: 0,
    }
}

/// A request without a match is answered with the configured status and body, or with
/// 404 if the status is none, and is marked as a miss.
pub proof fn law_miss_is_as_configured(config: RuntimeConfigView)
    ensures
        100 <= config.unmatched_status <= 999 ==> missed(config).status == config.unmatched_status,
        !(100 <= config.unmatched_status <= 999) ==> missed(config).status == 404,
        missed(config).body == vstd::utf8::encode_utf8(config.unmatched_body),
        missed(config).headers.contains(("x-ghost-miss"@, "true"@)),
        missed(config).headers.contains(("content-type"@, "application/json"@)),
        missed(config).delay_ms == 0,
{
    let hs = missed(config).headers;
    assert(hs[0] == ("content-type"@, "application/json"@));
    assert(hs[1] == ("x-ghost-miss"@, "true"@));
}

/// While recordings are processed a client is told to come back after five seconds, and
/// without a reply of the upstream that there is none.
pub proof fn law_transitioning_is_retried()
    ensures
        transitioning().status == 503,
        transitioning().headers.contains(("retry-after"@, "5"@)),
        transitioning().headers.contains(("x-ghost-transitioning"@, "true"@)),
        transitioning().headers.contains(("content-type"@, "application/json"@)),
        transitioning().delay_ms == 0,
        unreachable().status == 502,
        unreachable().body.len() == 0,
        unreachable().delay_ms == 0,
{
    let hs = transitioning().headers;
    assert(hs[0] == ("content-type"@, "application/json"@));
    assert(hs[1] == ("retry-after"@, "5"@));
    assert(hs[2] == ("x-ghost-transitioning"@, "true"@));
}

/// The body of the response while recordings are being processed.
pub const TRANSITIONING_BODY: &'static str =
    "{\"status\":\"transitioning\",\"message\":\"Proxy is processing recorded traffic. Retry in a few seconds.\",\"retry_after\":5}";

/// The response while recordings are being processed: 503, to be retried after five
/// seconds.
pub open spec fn transitioning() -> ResponsePlanView {
    ResponsePlanView {
        status: 503,
        headers: seq![
            ("content-type"@, "application/json"@),
            ("retry-after"@, "5"@),
            ("x-ghost-transitioning"@, "true"@),
        ],
        body: vstd::utf8::encode_utf8(TRANSITIONING_BODY@),
        delay_ms: 0,
    }
}

/// The response while recordings are being processed.
pub fn transitioning_response() -> (r: ResponsePlan)
    ensures
        r.deep_view() == transitioning(),
{
    let hs = vec![
        header_pair("content-type", "application/json"),
        header_pair("retry-after", "5"),
        header_pair("x-ghost-transitioning", "true"),
    ];
    assert(hs.deep_view() =~= transitioning().headers);
    ResponsePlan { status: 503, headers: hs, body: TRANSITIONING_BODY.as_bytes_vec(), delay_ms: 0 }
}

/// The response when the upstream gave no reply: 502, without a body.
pub open spec fn unreachable() -> ResponsePlanView {
    ResponsePlanView { status: 502, headers: Seq::empty(), body: Seq::empty(), delay_ms: 0 }
}

/// The response when the upstream gave no reply.
pub fn unreachable_response() -> (r: ResponsePlan)
    ensures
        r.deep_view() == unreachable(),
{
    let r = ResponsePlan { status: 502, headers: Vec::new(), body: Vec::new(), delay_ms: 0 };
    assert(r.headers.deep_view() =~= Seq::empty());
    r
}

// ─── Injected errors ─────────────────────────────────────────────────────────

/// Every header has a name and a value that are such.
pub open spec fn all_valid(hs: Seq<(Seq<char>, Seq<char>)>) -> bool {
    forall|i: int|
        0 <= i < hs.len() ==> headers::valid_name((#[trigger] hs[i]).0) && headers::valid_value(
            hs[i].1,
        )
}

/// The headers with names in lower case.
pub open spec fn lower_names(hs: Seq<(Seq<char>, Seq<char>)>) -> Seq<(Seq<char>, Seq<char>)> {
    hs.map_values(|h: (Seq<char>, Seq<char>)| (chars::ascii_lower(h.0), h.1))
}

/// The headers of every injected error.
pub open spec fn chaos_headers() -> Seq<(Seq<char>, Seq<char>)> {
    seq![("content-type"@, "application/json"@), ("x-ghost-chaos"@, "true"@)]
}

/// The response of an injected error. A status that is none becomes 500. An invalid
/// header leaves an empty 500 response.
pub open spec fn chaos_answer(e: DrawnErrorView) -> ResponsePlanView {
    let pairs = ordmap::sorted_pairs::<String, Seq<char>>(e.headers);
    if all_valid(pairs) {
        ResponsePlanView {
            status: if headers::valid_status(e.status) {
                e.status
            } else {
                500
            },
            headers: chaos_headers() + lower_names(pairs),
            body: vstd::utf8::encode_utf8(e.body),
            delay_ms: 0,
        }
    } else {
        ResponsePlanView { status: 500, headers: chaos_headers(), body: Seq::empty(), delay_ms: 0 }
    }
}

/// The status that an injected error is reported with.
pub open spec fn reported_status(e: DrawnErrorView) -> u16 {
    if all_valid(ordmap::sorted_pairs::<String, Seq<char>>(e.headers)) {
        e.status
    } else {
        500
    }
}

/// An injected error has the status and the body of the configured error, is marked as
/// injected, and has the headers of the error. Left out are errors with a status or a
/// header that is none.
pub proof fn law_injected_error_is_as_configured(e: DrawnErrorView)
    requires
        e.headers.dom().finite(),
        100 <= e.status <= 999,
        forall|k: Seq<char>| #[trigger]
            e.headers.contains_key(k) ==> headers::valid_name(k) && headers::valid_value(
                e.headers[k],
            ),
    ensures
        ({
            let r = chaos_answer(e);
            &&& r.status == e.status
            &&& reported_status(e) == e.status
            &&& r.body == vstd::utf8::encode_utf8(e.body)
            &&& r.delay_ms == 0
            &&& r.headers.contains(("x-ghost-chaos"@, "true"@))
            &&& r.headers.contains(("content-type"@, "application/json"@))
            &&& forall|k: Seq<char>| #[trigger]
                e.headers.contains_key(k) ==> r.headers.contains(
                    (chars::ascii_lower(k), e.headers[k]),
                )
        }),
{
    let pairs = ordmap::sorted_pairs::<String, Seq<char>>(e.headers);
    ordmap::lemma_finite_map_has_pairs::<String, Seq<char>>(e.headers);
    ordmap::lemma_pairs_map::<String, Seq<char>>(pairs);
    let r = chaos_answer(e);
    assert(all_valid(pairs)) by {
        assert forall|i: int| 0 <= i < pairs.len() implies headers::valid_name(
            (#[trigger] pairs[i]).0,
        ) && headers::valid_value(pairs[i].1) by {
            assert(e.headers.contains_key(pairs[i].0));
        }
    }
    assert(r.headers[0] == ("content-type"@, "application/json"@));
    assert(r.headers[1] == ("x-ghost-chaos"@, "true"@));
    assert forall|k: Seq<char>| #[trigger] e.headers.contains_key(k) implies r.headers.contains(
        (chars::ascii_lower(k), e.headers[k]),
    ) by {
        assert(ordmap::pairs_map(pairs).contains_key(k));
        let i = choose|i: int| 0 <= i < pairs.len() && (#[trigger] pairs[i]).0 == k;
        assert(pairs[i] == (k, e.headers[k]));
        assert(lower_names(pairs)[i] == (chars::ascii_lower(k), e.headers[k]));
        assert(r.headers[2 + i] == (chars::ascii_lower(k), e.headers[k]));
    }
}

fn chaos_header_list() -> (r: Vec<(String, String)>)
    ensures
        r.deep_view() == chaos_headers(),
{
    let hs = vec![
        header_pair("content-type", "application/json"),
        header_pair("x-ghost-chaos", "true"),
    ];
    assert(hs.deep_view() =~= chaos_headers());
    hs
}

/// The response of an injected error, and the status that it is reported with.
pub fn chaos_response(drawn: &DrawnError) -> (r: (ResponsePlan, u16))
    ensures
        r.0.deep_view() == chaos_answer(drawn.deep_view()),
        r.1 == reported_status(drawn.deep_view()),
{
    let hs = &drawn.headers;
    let n = hs.len();
    let ghost pairs = ordmap::sorted_pairs::<String, Seq<char>>(hs.deep_view());
    proof {
        lemma_text_pairs(*hs);
    }
    let mut out = chaos_header_list();
    let mut i: usize = 0;
    assert(out.deep_view() =~= chaos_headers() + lower_names(pairs.take(0)));
    while i < n
        invariant
            i <= n,
            n == hs.pairs().len(),
            n == pairs.len(),
            hs == &drawn.headers,
            pairs == ordmap::sorted_pairs::<String, Seq<char>>(hs.deep_view()),
            pairs == ordmap::deep_pairs(hs.pairs()),
            out.deep_view() == chaos_headers() + lower_names(pairs.take(i as int)),
            forall|j: int|
                0 <= j < i ==> headers::valid_name((#[trigger] pairs[j]).0) && headers::valid_value(
                    pairs[j].1,
                ),
        decreases n - i,
    {
        let k = hs.key_at(i);
        let v = hs.value_at(i);
        assert(pairs[i as int] == (k@, v@));
        match normal_name(k.as_str()) {
            Some(name) => {
                if value_text_ok(v.as_str()) {
                    let ghost before = out.deep_view();
                    out.push((name, v.clone()));
                    assert(out.deep_view() =~= before.push((chars::ascii_lower(k@), v@)));
                    assert(lower_names(pairs.take(i + 1)) =~= lower_names(
                        pairs.take(i as int),
                    ).push((chars::ascii_lower(k@), v@)));
                } else {
                    assert(!all_valid(pairs));
                    return (
                        ResponsePlan {
                            status: 500,
                            headers: chaos_header_list(),
                            body: Vec::new(),
                            delay_ms: 0,
                        },
                        500,
                    );
                }
            },
            None => {
                assert(!all_valid(pairs));
                return (
                    ResponsePlan {
                        status: 500,
                        headers: chaos_header_list(),
                        body: Vec::new(),
                        delay_ms: 0,
                    },
                    500,
                );
            },
        }
        i += 1;
    }
    assert(pairs.take(n as int) =~= pairs);
    let status: u16 = if status_ok(drawn.status) {
        drawn.status
    } else {
        500
    };
    (
        ResponsePlan {
            status,
            headers: out,
            body: drawn.body.as_str().as_bytes_vec(),
            delay_ms: 0,
        },
        drawn.status,
    )
}

/// The value of a header is that of the first one of its name; without one there is none.
pub proof fn law_first_plan_header(hs: Seq<(Seq<char>, Seq<char>)>, name: Seq<char>, k: int)
    requires
        0 <= k <= hs.len(),
        forall|i: int| 0 <= i < k ==> (#[trigger] hs[i]).0 != name,
        k < hs.len() ==> hs[k].0 == name,
    ensures
        k < hs.len() ==> plan_header(hs, name) == Some(hs[k].1),
        k == hs.len() ==> plan_header(hs, name) is None,
    decreases hs.len(),
{
    if k > 0 {
        assert(hs[0].0 != name);
        let rest = hs.drop_first();
        assert forall|i: int| 0 <= i < k - 1 implies (#[trigger] rest[i]).0 != name by {
            assert(rest[i] == hs[i + 1]);
        }
        if k < hs.len() {
            assert(rest[k - 1] == hs[k]);
        }
        law_first_plan_header(rest, name, k - 1);
    }
}

} // verus!
