//! HTTP header names, header values and status codes.
use crate::chars;
use crate::chars::eq_ignoring_case;
use crate::dup::Dup;
use crate::text::same_text;
use vstd::prelude::*;

verus! {

// ─── Validity ────────────────────────────────────────────────────────────────

/// A status code: three digits, from 100 on.
pub open spec fn valid_status(status: u16) -> bool {
    100 <= status <= 999
}

/// A character that a header name can hold.
pub open spec fn name_char(c: char) -> bool {
    chars::is_digit(c) || chars::is_letter(c) || c == '!' || c == '#' || c == '$' || c == '%' || c
        == '&' || c == '\'' || c == '*' || c == '+' || c == '-' || c == '.' || c == '^' || c == '_'
        || c == '`' || c == '|' || c == '~'
}

/// A header name: up to 65535 characters that a name can hold, at least one.
pub open spec fn valid_name(s: Seq<char>) -> bool {
    0 < s.len() <= 65535 && forall|i: int| 0 <= i < s.len() ==> name_char(#[trigger] s[i])
}

/// A character that a header value can hold: anything but the ASCII control
/// characters other than the tab.
pub open spec fn value_char(c: char) -> bool {
    c == '\t' || (' ' <= c && c != '\u{7f}')
}

/// A header value.
pub open spec fn valid_value(s: Seq<char>) -> bool {
    forall|i: int| 0 <= i < s.len() ==> value_char(#[trigger] s[i])
}

/// `StatusCode::from_u16`: it takes the codes from 100 to 999.
#[verifier::external_body]
pub(crate) fn status_ok(status: u16) -> (r: bool)
    ensures
        r == valid_status(status),
{
    axum::http::StatusCode::from_u16(status).is_ok()
}

/// `HeaderName::from_bytes`: it takes 1 to 65535 name characters and turns the
/// letters to lower case.
#[verifier::external_body]
pub(crate) fn normal_name(name: &str) -> (r: Option<String>)
    ensures
        r is Some == valid_name(name@),
        r is Some ==> r->0@ == chars::ascii_lower(name@),
{
    let name = axum::http::HeaderName::from_bytes(name.as_bytes()).ok()?;
    Some(name.as_str().to_owned())
}

/// `HeaderValue::from_bytes` on the bytes of a text: it takes every byte but the
/// control characters other than the tab.
#[verifier::external_body]
pub(crate) fn value_bytes_ok(value: &str) -> (r: bool)
    ensures
        r == valid_value(value@),
{
    axum::http::HeaderValue::from_bytes(value.as_bytes()).is_ok()
}

/// `HeaderValue::from_str`: it takes the texts that `HeaderValue::from_bytes` takes.
#[verifier::external_body]
pub(crate) fn value_text_ok(value: &str) -> (r: bool)
    ensures
        r == valid_value(value@),
{
    axum::http::HeaderValue::from_str(value).is_ok()
}

// ─── Request headers ─────────────────────────────────────────────────────────

/// The headers of a request in order: each name in lower case, each value if it is
/// visible ASCII text.
pub struct RequestHeaders {
    pub entries: Vec<(String, Option<String>)>,
}

impl DeepView for RequestHeaders {
    type V = Seq<(Seq<char>, Option<Seq<char>>)>;

    open spec fn deep_view(&self) -> Self::V {
        self.entries.deep_view()
    }
}

/// The first header of this name.
pub open spec fn first_header(
    hs: Seq<(Seq<char>, Option<Seq<char>>)>,
    name: Seq<char>,
) -> Option<Option<Seq<char>>>
    decreases hs.len(),
{
    if hs.len() == 0 {
        None
    } else if hs[0].0 == name {
        Some(hs[0].1)
    } else {
        first_header(hs.drop_first(), name)
    }
}

/// The text of the first header of this name, if there is one and it has text.
pub open spec fn header_text(
    hs: Seq<(Seq<char>, Option<Seq<char>>)>,
    name: Seq<char>,
) -> Option<Seq<char>> {
    match first_header(hs, name) {
        Some(v) => v,
        None => None,
    }
}

/// The first header of this name has this value, ASCII letters in either case.
pub open spec fn header_is(
    hs: Seq<(Seq<char>, Option<Seq<char>>)>,
    name: Seq<char>,
    value: Seq<char>,
) -> bool {
    match header_text(hs, name) {
        Some(v) => chars::same_ignoring_case(v, value),
        None => false,
    }
}

impl RequestHeaders {
    /// No headers.
    pub fn new() -> (r: Self)
        ensures
            r.deep_view() == Seq::<(Seq<char>, Option<Seq<char>>)>::empty(),
    {
        let r = RequestHeaders { entries: Vec::new() };
        assert(r.deep_view() =~= Seq::empty());
        r
    }

    /// Adds a header. The name is in lower case.
    pub fn push(&mut self, name: &str, value: Option<&str>)
        ensures
            final(self).deep_view() == old(self).deep_view().push((name@, value.deep_view())),
    {
        let ghost before = self.deep_view();
        let v: Option<String> = match value {
            Some(s) => Some(s.to_owned()),
            None => None,
        };
        self.entries.push((name.to_owned(), v));
        assert(self.deep_view() =~= before.push((name@, value.deep_view())));
    }

    fn find(&self, name: &str) -> (r: Option<usize>)
        ensures
            match r {
                Some(i) => i < self.entries@.len() && first_header(self.deep_view(), name@) == Some(
                    self.deep_view()[i as int].1,
                ),
                None => first_header(self.deep_view(), name@) is None,
            },
    {
        let ghost all = self.deep_view();
        let mut i: usize = 0;
        assert(all.skip(0) =~= all);
        while i < self.entries.len()
            invariant
                i <= self.entries@.len(),
                all == self.deep_view(),
                first_header(all, name@) == first_header(all.skip(i as int), name@),
            decreases self.entries@.len() - i,
        {
            proof {
                let t = all.skip(i as int);
                assert(t[0] == self.entries@[i as int].deep_view());
                assert(t.drop_first() =~= all.skip(i + 1));
            }
            if same_text(self.entries[i].0.as_str(), name) {
                return Some(i);
            }
            i += 1;
        }
        None
    }

    /// Whether there is a header of this name.
    pub fn contains(&self, name: &str) -> (r: bool)
        ensures
            r == (first_header(self.deep_view(), name@) is Some),
    {
        self.find(name).is_some()
    }

    /// The text of the first header of this name, if there is one and it has text.
    pub fn text(&self, name: &str) -> (r: Option<String>)
        ensures
            r.deep_view() == header_text(self.deep_view(), name@),
    {
        match self.find(name) {
            Some(i) => self.entries[i].1.dup(),
            None => None,
        }
    }

    /// Whether the first header of this name has this value, ASCII letters in either
    /// case.
    pub fn value_is(&self, name: &str, value: &str) -> (r: bool)
        ensures
            r == header_is(self.deep_view(), name@, value@),
    {
        match self.text(name) {
            Some(v) => eq_ignoring_case(v.as_str(), value),
            None => false,
        }
    }
}

// ─── Hop-by-hop headers ──────────────────────────────────────────────────────

/// A header that is about one connection and is never handed on.
pub open spec fn hop_by_hop(name: Seq<char>) -> bool {
    name == "transfer-encoding"@ || name == "connection"@ || name == "keep-alive"@
}

/// Whether a header, its name in lower case, is about one connection.
pub fn is_hop_by_hop(name: &str) -> (r: bool)
    ensures
        r == hop_by_hop(name@),
{
    same_text(name, "transfer-encoding") || same_text(name, "connection") || same_text(
        name,
        "keep-alive",
    )
}

/// A request header, its name in lower case, that is handed on to the upstream: all but
/// `host` and those about one connection.
pub open spec fn forwarded(name: Seq<char>) -> bool {
    name != "host"@ && !hop_by_hop(name)
}

/// A request header is forwarded unless it is one of four.
pub proof fn law_forwarded_headers(name: Seq<char>)
    ensures
        forwarded(name) <==> name != "host"@ && name != "connection"@ && name != "keep-alive"@
            && name != "transfer-encoding"@,
        hop_by_hop(name) <==> name == "connection"@ || name == "keep-alive"@ || name
            == "transfer-encoding"@,
{
}

/// Of a header the first value counts, and a header is found exactly if it is there.
pub proof fn law_first_header_counts(
    hs: Seq<(Seq<char>, Option<Seq<char>>)>,
    name: Seq<char>,
    k: int,
)
    requires
        0 <= k <= hs.len(),
        forall|i: int| 0 <= i < k ==> (#[trigger] hs[i]).0 != name,
        k < hs.len() ==> hs[k].0 == name,
    ensures
        k < hs.len() ==> first_header(hs, name) == Some(hs[k].1) && header_text(hs, name)
            == hs[k].1,
        k == hs.len() ==> first_header(hs, name) is None && header_text(hs, name) is None,
    decreases hs.len(),
{
    if k > 0 {
        assert(hs[0].0 != name);
        let rest = hs.drop_first();
        assert forall|i: int| 0 <= i < k - 1 implies (#[trigger] rest[i]).0 != name by {
            assert(rest[i] == hs[i + 1]);
        }
        if k < hs.len() {
            assert(rest[k - 1] == hs[k]);
        }
        law_first_header_counts(rest, name, k - 1);
    }
}

/// Whether a request header, its name in lower case, is handed on to the upstream:
/// all but `host` and those about one connection.
pub fn is_forwarded(name: &str) -> (r: bool)
    ensures
        r == forwarded(name@),
{
    !same_text(name, "host") && !is_hop_by_hop(name)
}

/// A header has a value exactly if its first value is that text, ASCII letters in either
/// case.
pub proof fn law_header_value(
    hs: Seq<(Seq<char>, Option<Seq<char>>)>,
    name: Seq<char>,
    value: Seq<char>,
)
    ensures
        header_is(hs, name, value) <==> {
            &&& header_text(hs, name) is Some
            &&& header_text(hs, name)->0.len() == value.len()
            &&& forall|i: int|
                0 <= i < value.len() ==> chars::ascii_lower_char(
                    #[trigger] header_text(hs, name)->0[i],
                ) == chars::ascii_lower_char(value[i])
        },
{
    if header_text(hs, name) is Some {
        let v = header_text(hs, name)->0;
        let a = chars::ascii_lower(v);
        let b = chars::ascii_lower(value);
        if a == b {
            assert(a.len() == v.len() && b.len() == value.len());
            assert forall|i: int| 0 <= i < value.len() implies chars::ascii_lower_char(
                #[trigger] v[i],
            ) == chars::ascii_lower_char(value[i]) by {
                assert(a[i] == b[i]);
            }
        }
        if v.len() == value.len() && forall|i: int|
            0 <= i < value.len() ==> chars::ascii_lower_char(#[trigger] v[i])
                == chars::ascii_lower_char(value[i]) {
            assert(a =~= b);
        }
    }
}

} // verus!
