//! URIs: path and query, dynamic segments, shape and canonical form.
use crate::chars;
use crate::chars::digit;
use crate::chars::hex;
use crate::chars::letter;
use crate::ordmap::OrdMap;
use crate::text;
use crate::text::chars_of;
use crate::text::join_text;
use crate::text::split_once;
use crate::text::split_text;
use crate::text::text_before;
use vstd::prelude::*;
use vstd::string::StringExecFns;

verus! {

// ─── Path and query ──────────────────────────────────────────────────────────

/// The path of a URI: what stands before the first `?`.
pub open spec fn path_of(uri: Seq<char>) -> Seq<char> {
    text::before_char(uri, '?')
}

/// The query of a URI: what stands after the first `?`.
pub open spec fn query_of(uri: Seq<char>) -> Seq<char> {
    text::after_char(uri, '?')
}

/// The segments of the path of a URI.
pub open spec fn segments(uri: Seq<char>) -> Seq<Seq<char>> {
    text::split(path_of(uri), '/')
}

/// A query parameter: its key and its value, empty if there is no `=`.
pub open spec fn param_of(kv: Seq<char>) -> (Seq<char>, Seq<char>) {
    (text::before_char(kv, '='), text::after_char(kv, '='))
}

/// The parameters of a query, in order.
pub open spec fn params_of(query: Seq<char>) -> Seq<(Seq<char>, Seq<char>)> {
    text::split(query, '&').map_values(|kv: Seq<char>| param_of(kv))
}

/// The map of the parameters `ps`; of equal keys the last one counts.
pub open spec fn params_map(ps: Seq<(Seq<char>, Seq<char>)>) -> Map<Seq<char>, Seq<char>>
    decreases ps.len(),
{
    if ps.len() == 0 {
        Map::empty()
    } else {
        params_map(ps.drop_last()).insert(ps.last().0, ps.last().1)
    }
}

/// The parameters of a query by key; an empty query has none.
pub open spec fn query_map(query: Seq<char>) -> Map<Seq<char>, Seq<char>> {
    if query.len() == 0 {
        Map::empty()
    } else {
        params_map(params_of(query))
    }
}

/// Splits a URI into path and query.
pub fn split_uri(uri: &str) -> (r: (String, String))
    ensures
        r.0@ == path_of(uri@),
        r.1@ == query_of(uri@),
{
    match split_once(uri, '?') {
        (path, Some(query)) => (path, query),
        (path, None) => (path, String::new()),
    }
}

/// The parameter that `kv` holds.
fn parse_param(kv: &str) -> (r: (String, String))
    ensures
        r.deep_view() == param_of(kv@),
{
    match split_once(kv, '=') {
        (key, Some(value)) => (key, value),
        (key, None) => (key, String::new()),
    }
}

/// The parameters of a query, in order.
fn parse_params(query: &str) -> (r: Vec<(String, String)>)
    ensures
        r.deep_view() == params_of(query@),
{
    let kvs = split_text(query, '&');
    let ghost ss = kvs.deep_view();
    let mut out: Vec<(String, String)> = Vec::new();
    let mut i: usize = 0;
    while i < kvs.len()
        invariant
            ss == kvs.deep_view(),
            i <= kvs@.len(),
            out@.len() == i,
            forall|j: int| 0 <= j < i ==> #[trigger] out@[j].deep_view() == param_of(ss[j]),
        decreases kvs@.len() - i,
    {
        out.push(parse_param(kvs[i].as_str()));
        i += 1;
    }
    assert(out.deep_view() =~= params_of(query@));
    out
}

/// The parameters of a query by key. Of equal keys the last one counts.
pub fn parse_query(qs: &str) -> (r: OrdMap<String, String>)
    ensures
        r.deep_view() == query_map(qs@),
{
    let mut out: OrdMap<String, String> = OrdMap::new();
    assert(out.deep_view() =~= Map::empty());
    if qs.is_empty() {
        assert(qs@.len() == 0);
        return out;
    }
    assert(qs@.len() > 0);
    let params = parse_params(qs);
    let ghost ps = params.deep_view();
    let mut i: usize = 0;
    assert(ps.take(0) =~= Seq::empty());
    while i < params.len()
        invariant
            ps == params.deep_view(),
            i <= params@.len(),
            out.deep_view() == params_map(ps.take(i as int)),
        decreases params@.len() - i,
    {
        let ghost before = out.deep_view();
        out.insert(params[i].0.clone(), params[i].1.clone());
        proof {
            let t = ps.take(i + 1);
            assert(t.drop_last() =~= ps.take(i as int));
            assert(t.last() == params@[i as int].deep_view());
            assert(out.deep_view() =~= before.insert(t.last().0, t.last().1));
        }
        i += 1;
    }
    assert(ps.take(i as int) =~= ps);
    out
}

// ─── Dynamic segments ────────────────────────────────────────────────────────

/// Every character of `s` is in `p`.
pub open spec fn all_chars(s: Seq<char>, p: spec_fn(char) -> bool) -> bool {
    forall|i: int| 0 <= i < s.len() ==> p(#[trigger] s[i])
}

/// Some character of `s` is in `p`.
pub open spec fn some_char(s: Seq<char>, p: spec_fn(char) -> bool) -> bool {
    exists|i: int| 0 <= i < s.len() && p(#[trigger] s[i])
}

/// Five groups of hexadecimal digits, joined by dashes.
pub open spec fn hex_groups(s: Seq<char>) -> bool {
    let parts = text::split(s, '-');
    parts.len() == 5 && forall|i: int|
        0 <= i < 5 ==> all_chars(#[trigger] parts[i], |c: char| chars::is_hex(c))
}

/// A path segment that holds a value rather than a name: digits only, five
/// hexadecimal groups, or letters and digits together with nothing but
/// alphanumeric characters, `-` and `_`.
pub open spec fn dynamic_segment(s: Seq<char>) -> bool {
    s.len() > 0 && {
        ||| all_chars(s, |c: char| chars::is_digit(c))
        ||| hex_groups(s)
        ||| {
            &&& some_char(s, |c: char| chars::is_digit(c))
            &&& some_char(s, |c: char| chars::is_letter(c))
            &&& all_chars(s, |c: char| chars::is_alphanumeric(c) || c == '-' || c == '_')
        }
    }
}

fn all_hex(s: &str) -> (r: bool)
    ensures
        r == all_chars(s@, |c: char| chars::is_hex(c)),
{
    let cs = chars_of(s);
    let mut i: usize = 0;
    while i < cs.len()
        invariant
            cs@ == s@,
            i <= cs@.len(),
            forall|j: int| 0 <= j < i ==> chars::is_hex(#[trigger] cs@[j]),
        decreases cs@.len() - i,
    {
        if !hex(cs[i]) {
            assert(!(|c: char| chars::is_hex(c))(s@[i as int]));
            return false;
        }
        i += 1;
    }
    true
}

fn is_hex_groups(s: &str) -> (r: bool)
    ensures
        r == hex_groups(s@),
{
    let parts = split_text(s, '-');
    let ghost ps = parts.deep_view();
    if parts.len() != 5 {
        return false;
    }
    let mut i: usize = 0;
    while i < 5
        invariant
            ps == parts.deep_view(),
            ps == text::split(s@, '-'),
            parts@.len() == 5,
            i <= 5,
            forall|j: int|
                0 <= j < i ==> all_chars(#[trigger] ps[j], |c: char| chars::is_hex(c)),
        decreases 5 - i,
    {
        if !all_hex(parts[i].as_str()) {
            assert(!all_chars(ps[i as int], |c: char| chars::is_hex(c)));
            return false;
        }
        i += 1;
    }
    true
}

/// Whether a path segment holds a value rather than a name.
pub fn is_dynamic_segment(s: &str) -> (r: bool)
    ensures
        r == dynamic_segment(s@),
{
    let cs = chars_of(s);
    if cs.len() == 0 {
        return false;
    }
    let mut has_digit = false;
    let mut has_alpha = false;
    let mut all_digits = true;
    let mut all_valid = true;
    let mut i: usize = 0;
    let ghost is_d = |c: char| chars::is_digit(c);
    let ghost is_a = |c: char| chars::is_letter(c);
    let ghost is_v = |c: char| chars::is_alphanumeric(c) || c == '-' || c == '_';
    while i < cs.len()
        invariant
            cs@ == s@,
            i <= cs@.len(),
            is_d == |c: char| chars::is_digit(c),
            is_a == |c: char| chars::is_letter(c),
            is_v == |c: char| chars::is_alphanumeric(c) || c == '-' || c == '_',
            has_digit == exists|j: int| 0 <= j < i && is_d(#[trigger] s@[j]),
            has_alpha == exists|j: int| 0 <= j < i && is_a(#[trigger] s@[j]),
            all_digits == forall|j: int| 0 <= j < i ==> is_d(#[trigger] s@[j]),
            all_valid == forall|j: int| 0 <= j < i ==> is_v(#[trigger] s@[j]),
        decreases cs@.len() - i,
    {
        let c = cs[i];
        let d = digit(c);
        let a = letter(c);
        let v = c.is_alphanumeric() || c == '-' || c == '_';
        proof {
            assert(is_d(s@[i as int]) == d);
            assert(is_a(s@[i as int]) == a);
            assert(is_v(s@[i as int]) == v);
        }
        has_digit = has_digit || d;
        has_alpha = has_alpha || a;
        all_digits = all_digits && d;
        all_valid = all_valid && v;
        i += 1;
    }
    if all_digits {
        return true;
    }
    if is_hex_groups(s) {
        return true;
    }
    has_digit && has_alpha && all_valid
}

// ─── Shape ───────────────────────────────────────────────────────────────────

/// Two segments agree: they are equal, or one of them is dynamic.
pub open spec fn segments_agree(a: Seq<char>, b: Seq<char>) -> bool {
    a == b || dynamic_segment(a) || dynamic_segment(b)
}

/// Two URIs have the same shape: as many path segments, each two agreeing.
pub open spec fn same_shape(recorded: Seq<char>, incoming: Seq<char>) -> bool {
    let r = segments(recorded);
    let i = segments(incoming);
    r.len() == i.len() && forall|k: int|
        0 <= k < r.len() ==> segments_agree(#[trigger] r[k], i[k])
}

/// Whether two URIs have the same shape. Queries do not count.
pub fn paths_match(recorded: &str, incoming: &str) -> (r: bool)
    ensures
        r == same_shape(recorded@, incoming@),
{
    let (rec_path, _) = split_uri(recorded);
    let (inc_path, _) = split_uri(incoming);
    let rp = split_text(rec_path.as_str(), '/');
    let ip = split_text(inc_path.as_str(), '/');
    let ghost rs = rp.deep_view();
    let ghost is = ip.deep_view();
    if rp.len() != ip.len() {
        return false;
    }
    let mut k: usize = 0;
    while k < rp.len()
        invariant
            rs == rp.deep_view(),
            is == ip.deep_view(),
            rs == segments(recorded@),
            is == segments(incoming@),
            rp@.len() == ip@.len(),
            k <= rp@.len(),
            forall|j: int| 0 <= j < k ==> segments_agree(#[trigger] rs[j], is[j]),
        decreases rp@.len() - k,
    {
        let agree = rp[k] == ip[k] || is_dynamic_segment(rp[k].as_str()) || is_dynamic_segment(
            ip[k].as_str(),
        );
        if !agree {
            assert(!segments_agree(rs[k as int], is[k as int]));
            return false;
        }
        k += 1;
    }
    true
}

/// A URI has the shape of itself.
pub proof fn law_shape_reflexive(uri: Seq<char>)
    ensures
        same_shape(uri, uri),
{
}

/// Shape does not depend on which URI was recorded.
pub proof fn law_shape_symmetric(a: Seq<char>, b: Seq<char>)
    ensures
        same_shape(a, b) == same_shape(b, a),
{
    let r = segments(a);
    let i = segments(b);
    if same_shape(a, b) {
        assert forall|k: int| 0 <= k < i.len() implies segments_agree(#[trigger] i[k], r[k]) by {
            assert(segments_agree(r[k], i[k]));
        }
    }
    if same_shape(b, a) {
        assert forall|k: int| 0 <= k < r.len() implies segments_agree(#[trigger] r[k], i[k]) by {
            assert(segments_agree(i[k], r[k]));
        }
    }
}

/// Queries do not count for the shape.
pub proof fn law_shape_ignores_query(a: Seq<char>, a2: Seq<char>, b: Seq<char>)
    requires
        path_of(a) == path_of(a2),
    ensures
        same_shape(a, b) == same_shape(a2, b),
        same_shape(b, a) == same_shape(b, a2),
{
}

/// URIs whose static segments differ do not have the same shape.
pub proof fn law_static_segment_separates(a: Seq<char>, b: Seq<char>, k: int)
    requires
        0 <= k < segments(a).len(),
        k < segments(b).len(),
        segments(a)[k] != segments(b)[k],
        !dynamic_segment(segments(a)[k]),
        !dynamic_segment(segments(b)[k]),
    ensures
        !same_shape(a, b),
{
    assert(!segments_agree(segments(a)[k], segments(b)[k]));
}

// ─── Canonical form ──────────────────────────────────────────────────────────

/// `s` with `p` put after the last parameter whose key is not greater.
pub open spec fn put_param(
    s: Seq<(Seq<char>, Seq<char>)>,
    p: (Seq<char>, Seq<char>),
) -> Seq<(Seq<char>, Seq<char>)>
    decreases s.len(),
{
    if s.len() > 0 && text::text_lt(p.0, s.last().0) {
        put_param(s.drop_last(), p).push(s.last())
    } else {
        s.push(p)
    }
}

/// The parameters in ascending key order; equal keys keep their order.
pub open spec fn sort_params(ps: Seq<(Seq<char>, Seq<char>)>) -> Seq<(Seq<char>, Seq<char>)>
    decreases ps.len(),
{
    if ps.len() == 0 {
        Seq::empty()
    } else {
        put_param(sort_params(ps.drop_last()), ps.last())
    }
}

/// A parameter as it stands in a query.
pub open spec fn param_text(p: (Seq<char>, Seq<char>)) -> Seq<char> {
    p.0 + seq!['='] + p.1
}

/// A query with the given parameters.
pub open spec fn query_text(ps: Seq<(Seq<char>, Seq<char>)>) -> Seq<char> {
    text::join(ps.map_values(|p: (Seq<char>, Seq<char>)| param_text(p)), seq!['&'])
}

/// The canonical form of a URI: its query parameters in ascending key order.
pub open spec fn normalized(uri: Seq<char>) -> Seq<char> {
    if text::find_char(uri, '?') < uri.len() {
        path_of(uri) + seq!['?'] + query_text(sort_params(params_of(query_of(uri))))
    } else {
        uri
    }
}

fn insert_param(sorted: &mut Vec<(String, String)>, p: (String, String))
    ensures
        final(sorted).deep_view() == put_param(old(sorted).deep_view(), p.deep_view()),
{
    let ghost s = sorted.deep_view();
    let ghost pv = p.deep_view();
    let mut i: usize = sorted.len();
    assert(s.take(i as int) =~= s);
    assert(s.skip(i as int) =~= Seq::empty());
    assert(put_param(s, pv) + s.skip(i as int) =~= put_param(s, pv));
    while i > 0 && text_before(p.0.as_str(), sorted[i - 1].0.as_str())
        invariant
            i <= sorted@.len(),
            s == sorted.deep_view(),
            pv == p.deep_view(),
            put_param(s, pv) == put_param(s.take(i as int), pv) + s.skip(i as int),
        decreases i,
    {
        proof {
            let t = s.take(i as int);
            assert(t.last() == s[i - 1]);
            assert(t.drop_last() =~= s.take(i - 1));
            assert(put_param(t, pv) + s.skip(i as int) =~= put_param(s.take(i - 1), pv) + s.skip(
                i - 1,
            ));
        }
        i -= 1;
    }
    proof {
        let t = s.take(i as int);
        if i > 0 {
            assert(t.last() == s[i - 1]);
        }
        assert(put_param(t, pv) == t.push(pv));
    }
    sorted.insert(i, p);
    assert(sorted.deep_view() =~= s.take(i as int).push(pv) + s.skip(i as int));
}

/// The canonical form of a URI: its query parameters sorted by key, so that URIs
/// that differ only in the order of their parameters are equal.
pub fn normalize_uri(uri: &str) -> (r: String)
    ensures
        r@ == normalized(uri@),
{
    match split_once(uri, '?') {
        (_, None) => uri.to_owned(),
        (path, Some(query)) => {
            let params = parse_params(query.as_str());
            let ghost ps = params.deep_view();
            let mut sorted: Vec<(String, String)> = Vec::new();
            let mut i: usize = 0;
            assert(sorted.deep_view() =~= Seq::empty());
            assert(ps.take(0) =~= Seq::empty());
            while i < params.len()
                invariant
                    ps == params.deep_view(),
                    i <= params@.len(),
                    sorted.deep_view() == sort_params(ps.take(i as int)),
                decreases params@.len() - i,
            {
                insert_param(&mut sorted, (params[i].0.clone(), params[i].1.clone()));
                proof {
                    let t = ps.take(i + 1);
                    assert(t.drop_last() =~= ps.take(i as int));
                    assert(t.last() == params@[i as int].deep_view());
                }
                i += 1;
            }
            assert(ps.take(i as int) =~= ps);
            let ghost ss = sorted.deep_view();
            let mut texts: Vec<String> = Vec::new();
            let mut k: usize = 0;
            while k < sorted.len()
                invariant
                    ss == sorted.deep_view(),
                    k <= sorted@.len(),
                    texts@.len() == k,
                    forall|j: int| 0 <= j < k ==> #[trigger] texts@[j]@ == param_text(ss[j]),
                decreases sorted@.len() - k,
            {
                let mut t = sorted[k].0.clone();
                t.push('=');
                t.append(sorted[k].1.as_str());
                assert(ss[k as int] == sorted@[k as int].deep_view());
                assert(t@ =~= param_text(ss[k as int]));
                texts.push(t);
                k += 1;
            }
            assert(texts.deep_view() =~= ss.map_values(
                |p: (Seq<char>, Seq<char>)| param_text(p),
            ));
            let mut out = path;
            out.push('?');
            let joined = join_text(&texts, "&");
            proof {
                reveal_strlit("&");
                assert("&"@ =~= seq!['&']);
            }
            out.append(joined.as_str());
            assert(out@ =~= normalized(uri@));
            out
        },
    }
}

// ─── Laws of the canonical form ──────────────────────────────────────────────

/// The parameters of `ps` with the key `k`, in order.
pub open spec fn with_key(ps: Seq<(Seq<char>, Seq<char>)>, k: Seq<char>) -> Seq<
    (Seq<char>, Seq<char>),
>
    decreases ps.len(),
{
    if ps.len() == 0 {
        Seq::empty()
    } else if ps.last().0 == k {
        with_key(ps.drop_last(), k).push(ps.last())
    } else {
        with_key(ps.drop_last(), k)
    }
}

/// No parameter stands after one with a greater key.
pub open spec fn keys_ascend(s: Seq<(Seq<char>, Seq<char>)>) -> bool {
    forall|i: int, j: int|
        #![trigger s[i], s[j]]
        0 <= i < j < s.len() ==> !text::text_lt(s[j].0, s[i].0)
}

proof fn lemma_put_with_key(
    s: Seq<(Seq<char>, Seq<char>)>,
    p: (Seq<char>, Seq<char>),
    k: Seq<char>,
)
    ensures
        with_key(put_param(s, p), k) == with_key(s.push(p), k),
    decreases s.len(),
{
    let pushed = s.push(p);
    assert(pushed.drop_last() =~= s);
    if s.len() > 0 && text::text_lt(p.0, s.last().0) {
        let t = s.drop_last();
        lemma_put_with_key(t, p, k);
        assert(t.push(p).drop_last() =~= t);
        let whole = put_param(t, p).push(s.last());
        assert(whole.drop_last() =~= put_param(t, p));
        text::lemma_text_lt_irreflexive(p.0);
        reveal_with_fuel(with_key, 3);
        assert(put_param(s, p) == whole);
        assert(p.0 != s.last().0);
        assert(t.push(p).last() == p);
        assert(pushed.last() == p);
        assert(whole.last() == s.last());
        if s.last().0 == k {
            assert(with_key(t.push(p), k) == with_key(t, k));
            assert(with_key(whole, k) == with_key(t, k).push(s.last()));
        } else if p.0 == k {
            assert(with_key(t.push(p), k) == with_key(t, k).push(p));
            assert(with_key(s, k) == with_key(t, k));
        }
    }
}

proof fn lemma_put_keys_ascend(s: Seq<(Seq<char>, Seq<char>)>, p: (Seq<char>, Seq<char>))
    requires
        keys_ascend(s),
    ensures
        keys_ascend(put_param(s, p)),
        put_param(s, p).len() == s.len() + 1,
        forall|i: int|
            0 <= i <= s.len() ==> #[trigger] put_param(s, p)[i] == p || s.contains(
                put_param(s, p)[i],
            ),
    decreases s.len(),
{
    let r = put_param(s, p);
    if s.len() > 0 && text::text_lt(p.0, s.last().0) {
        let t = s.drop_last();
        let u = put_param(t, p);
        assert forall|i: int, j: int|
            #![trigger t[i], t[j]]
            0 <= i < j < t.len() implies !text::text_lt(t[j].0, t[i].0) by {
            assert(t[i] == s[i] && t[j] == s[j]);
        }
        lemma_put_keys_ascend(t, p);
        let last = s[s.len() - 1];
        assert forall|i: int| 0 <= i < u.len() implies !text::text_lt(last.0, u[i].0) && (
        #[trigger] u[i] == p || s.contains(u[i])) by {
            if u[i] == p {
                if text::text_lt(last.0, p.0) {
                    text::lemma_text_lt_transitive(last.0, p.0, last.0);
                    text::lemma_text_lt_irreflexive(last.0);
                }
            } else {
                let k = t.index_of(u[i]);
                assert(t[k] == u[i]);
                assert(s[k] == u[i]);
            }
        }
        assert forall|i: int, j: int|
            #![trigger r[i], r[j]]
            0 <= i < j < r.len() implies !text::text_lt(r[j].0, r[i].0) by {
            assert(r[i] == u[i]);
            if j < u.len() {
                assert(r[j] == u[j]);
            }
        }
        assert forall|i: int| 0 <= i <= s.len() implies #[trigger] r[i] == p || s.contains(
            r[i],
        ) by {
            if i < u.len() {
                assert(r[i] == u[i]);
            } else {
                assert(r[i] == last);
            }
        }
    } else {
        assert forall|i: int, j: int|
            #![trigger r[i], r[j]]
            0 <= i < j < r.len() implies !text::text_lt(r[j].0, r[i].0) by {
            assert(r[i] == s[i]);
            if j < s.len() {
                assert(r[j] == s[j]);
            } else if i < s.len() - 1 {
                let last = s[s.len() - 1];
                if text::text_lt(p.0, s[i].0) {
                    text::lemma_text_lt_total(p.0, last.0);
                    if p.0 == last.0 {
                        assert(!text::text_lt(last.0, s[i].0));
                    } else {
                        text::lemma_text_lt_transitive(last.0, p.0, s[i].0);
                    }
                }
            }
        }
        assert forall|i: int| 0 <= i <= s.len() implies #[trigger] r[i] == p || s.contains(
            r[i],
        ) by {
            if i < s.len() {
                assert(r[i] == s[i]);
            }
        }
    }
}

/// Sorting puts the keys in ascending order, keeps the parameters of each key in
/// their order, and neither adds nor drops one.
pub proof fn law_sort_params(ps: Seq<(Seq<char>, Seq<char>)>)
    ensures
        keys_ascend(sort_params(ps)),
        forall|k: Seq<char>| #[trigger] with_key(sort_params(ps), k) == with_key(ps, k),
        sort_params(ps).len() == ps.len(),
        forall|i: int| 0 <= i < ps.len() ==> ps.contains(#[trigger] sort_params(ps)[i]),
    decreases ps.len(),
{
    if ps.len() > 0 {
        let init = ps.drop_last();
        law_sort_params(init);
        let s = sort_params(init);
        let p = ps.last();
        lemma_put_keys_ascend(s, p);
        assert forall|k: Seq<char>| #[trigger] with_key(sort_params(ps), k) == with_key(ps, k) by {
            lemma_put_with_key(s, p, k);
            assert(s.push(p).drop_last() =~= s);
            assert(with_key(s, k) == with_key(init, k));
        }
        assert forall|i: int| 0 <= i < ps.len() implies ps.contains(
            #[trigger] sort_params(ps)[i],
        ) by {
            let x = sort_params(ps)[i];
            if x == p {
                assert(ps[ps.len() - 1] == x);
            } else {
                let j = s.index_of(x);
                assert(s[j] == x);
                assert(init.contains(x));
                let m = init.index_of(x);
                assert(ps[m] == x);
            }
        }
    }
}

proof fn lemma_with_key_found(ps: Seq<(Seq<char>, Seq<char>)>, k: Seq<char>)
    requires
        with_key(ps, k).len() > 0,
    ensures
        exists|i: int| 0 <= i < ps.len() && #[trigger] ps[i].0 == k,
    decreases ps.len(),
{
    if ps.last().0 == k {
        assert(ps[ps.len() - 1].0 == k);
    } else {
        let init = ps.drop_last();
        lemma_with_key_found(init, k);
        let i = choose|i: int| 0 <= i < init.len() && #[trigger] init[i].0 == k;
        assert(ps[i].0 == k);
    }
}

proof fn lemma_ascending_params_unique(
    s: Seq<(Seq<char>, Seq<char>)>,
    t: Seq<(Seq<char>, Seq<char>)>,
)
    requires
        keys_ascend(s),
        keys_ascend(t),
        forall|k: Seq<char>| #[trigger] with_key(s, k) == with_key(t, k),
    ensures
        s == t,
    decreases s.len(),
{
    if s.len() == 0 {
        if t.len() > 0 {
            assert(with_key(t, t.last().0) == with_key(s, t.last().0));
        }
        assert(s =~= t);
    } else {
        let a = s[s.len() - 1];
        assert(with_key(s, a.0) == with_key(t, a.0));
        assert(with_key(s, a.0).last() == a);
        assert(t.len() > 0);
        let b = t[t.len() - 1];
        assert(with_key(s, b.0) == with_key(t, b.0));
        lemma_with_key_found(t, a.0);
        lemma_with_key_found(s, b.0);
        let i = choose|i: int| 0 <= i < t.len() && #[trigger] t[i].0 == a.0;
        let j = choose|j: int| 0 <= j < s.len() && #[trigger] s[j].0 == b.0;
        text::lemma_text_lt_irreflexive(a.0);
        text::lemma_text_lt_total(a.0, b.0);
        assert(!text::text_lt(b.0, a.0));
        assert(!text::text_lt(a.0, b.0));
        assert(a.0 == b.0);
        assert(with_key(t, b.0).last() == b);
        assert(a == b);
        let s1 = s.drop_last();
        let t1 = t.drop_last();
        assert forall|i: int, j: int|
            #![trigger s1[i], s1[j]]
            0 <= i < j < s1.len() implies !text::text_lt(s1[j].0, s1[i].0) by {
            assert(s1[i] == s[i] && s1[j] == s[j]);
        }
        assert forall|i: int, j: int|
            #![trigger t1[i], t1[j]]
            0 <= i < j < t1.len() implies !text::text_lt(t1[j].0, t1[i].0) by {
            assert(t1[i] == t[i] && t1[j] == t[j]);
        }
        assert forall|k: Seq<char>| #[trigger] with_key(s1, k) == with_key(t1, k) by {
            assert(with_key(s, k) == with_key(t, k));
            if k == a.0 {
                assert(with_key(s1, k) =~= with_key(s, k).drop_last());
                assert(with_key(t1, k) =~= with_key(t, k).drop_last());
            }
        }
        lemma_ascending_params_unique(s1, t1);
        assert(s =~= s1.push(a));
        assert(t =~= t1.push(b));
    }
}

/// The canonical form does not depend on the order of parameters with different
/// keys: two URIs with the same path, and with the same parameters under each key,
/// have the same canonical form.
pub proof fn law_normalize_ignores_order(a: Seq<char>, b: Seq<char>)
    requires
        text::find_char(a, '?') < a.len(),
        text::find_char(b, '?') < b.len(),
        path_of(a) == path_of(b),
        forall|k: Seq<char>|
            #[trigger] with_key(params_of(query_of(a)), k) == with_key(params_of(query_of(b)), k),
    ensures
        normalized(a) == normalized(b),
{
    let p = params_of(query_of(a));
    let q = params_of(query_of(b));
    law_sort_params(p);
    law_sort_params(q);
    assert forall|k: Seq<char>| #[trigger] with_key(sort_params(p), k) == with_key(
        sort_params(q),
        k,
    ) by {
        assert(with_key(p, k) == with_key(q, k));
    }
    lemma_ascending_params_unique(sort_params(p), sort_params(q));
}

proof fn lemma_sort_sorted(s: Seq<(Seq<char>, Seq<char>)>)
    requires
        keys_ascend(s),
    ensures
        sort_params(s) == s,
{
    law_sort_params(s);
    lemma_ascending_params_unique(sort_params(s), s);
}

proof fn lemma_params_parts(query: Seq<char>)
    ensures
        params_of(query).len() > 0,
        forall|i: int|
            0 <= i < params_of(query).len() ==> text::lacks_char(
                (#[trigger] params_of(query)[i]).0,
                '=',
            ) && text::lacks_char(params_of(query)[i].0, '&') && text::lacks_char(
                params_of(query)[i].1,
                '&',
            ),
{
    let parts = text::split(query, '&');
    text::lemma_split_nonempty(query, '&');
    text::lemma_split_parts_lack(query, '&');
    assert forall|i: int| 0 <= i < params_of(query).len() implies text::lacks_char(
        (#[trigger] params_of(query)[i]).0,
        '=',
    ) && text::lacks_char(params_of(query)[i].0, '&') && text::lacks_char(
        params_of(query)[i].1,
        '&',
    ) by {
        let kv = parts[i];
        assert(text::lacks_char(kv, '&'));
        text::lemma_find_char(kv, '=');
        let n = text::find_char(kv, '=');
        assert(params_of(query)[i] == param_of(kv));
        assert forall|j: int| 0 <= j < kv.take(n).len() implies #[trigger] kv.take(n)[j] != '='
            && kv.take(n)[j] != '&' by {
            assert(kv.take(n)[j] == kv[j]);
        }
        if n < kv.len() {
            let v = kv.skip(n + 1);
            assert forall|j: int| 0 <= j < v.len() implies #[trigger] v[j] != '&' by {
                assert(v[j] == kv[n + 1 + j]);
            }
        }
    }
}

/// The canonical form has the path of the URI and its parameters in ascending key
/// order.
pub proof fn law_normalized_params(uri: Seq<char>)
    requires
        text::find_char(uri, '?') < uri.len(),
    ensures
        text::find_char(normalized(uri), '?') < normalized(uri).len(),
        path_of(normalized(uri)) == path_of(uri),
        params_of(query_of(normalized(uri))) == sort_params(params_of(query_of(uri))),
{
    let ps = params_of(query_of(uri));
    let s = sort_params(ps);
    let q = query_text(s);
    let path = path_of(uri);
    text::lemma_find_char(uri, '?');
    assert forall|i: int| 0 <= i < path.len() implies #[trigger] path[i] != '?' by {
        assert(path[i] == uri[i]);
    }
    text::lemma_find_char_after(path, '?', q);
    text::lemma_find_char(path + seq!['?'] + q, '?');
    assert((path + seq!['?'] + q)[path.len() as int] == '?');
    law_sort_params(ps);
    lemma_params_parts(query_of(uri));
    let texts = s.map_values(|p: (Seq<char>, Seq<char>)| param_text(p));
    assert forall|i: int| 0 <= i < s.len() implies text::lacks_char(
        #[trigger] texts[i],
        '&',
    ) && param_of(texts[i]) == s[i] by {
        let p = s[i];
        let j = ps.index_of(p);
        assert(ps[j] == p);
        assert(texts[i] == param_text(p));
        assert forall|m: int| 0 <= m < texts[i].len() implies #[trigger] texts[i][m] != '&' by {
            if m < p.0.len() {
                assert(texts[i][m] == p.0[m]);
            } else if m > p.0.len() {
                assert(texts[i][m] == p.1[m - p.0.len() - 1]);
            }
        }
        text::lemma_find_char_after(p.0, '=', p.1);
    }
    text::lemma_split_join(texts, '&');
    assert(params_of(q) =~= s);
}

/// The canonical form of a canonical form is itself.
pub proof fn law_normalize_idempotent(uri: Seq<char>)
    ensures
        normalized(normalized(uri)) == normalized(uri),
{
    if text::find_char(uri, '?') < uri.len() {
        law_normalized_params(uri);
        law_sort_params(params_of(query_of(uri)));
        lemma_sort_sorted(sort_params(params_of(query_of(uri))));
    }
}

// ─── Laws of segments and parameters ─────────────────────────────────────────

/// A number is a value, whatever its length.
pub proof fn law_number_is_dynamic(s: Seq<char>)
    requires
        s.len() > 0,
        forall|i: int| 0 <= i < s.len() ==> '0' <= #[trigger] s[i] <= '9',
    ensures
        dynamic_segment(s),
{
    let p = |c: char| chars::is_digit(c);
    assert forall|i: int| 0 <= i < s.len() implies p(#[trigger] s[i]) by {}
    assert(all_chars(s, p));
}

/// Five groups of hexadecimal digits joined by dashes are a value.
pub proof fn law_uuid_is_dynamic(groups: Seq<Seq<char>>)
    requires
        groups.len() == 5,
        forall|i: int, j: int|
            #![trigger groups[i][j]]
            0 <= i < 5 && 0 <= j < groups[i].len() ==> ('0' <= groups[i][j] <= '9') || ('a'
                <= groups[i][j] <= 'f') || ('A' <= groups[i][j] <= 'F'),
    ensures
        dynamic_segment(text::join(groups, seq!['-'])),
{
    let p = |c: char| chars::is_hex(c);
    assert forall|i: int| 0 <= i < 5 implies text::lacks_char(#[trigger] groups[i], '-')
        && all_chars(groups[i], p) by {
        assert forall|j: int| 0 <= j < groups[i].len() implies p(#[trigger] groups[i][j])
            && groups[i][j] != '-' by {}
    }
    text::lemma_split_join(groups, '-');
    let s = text::join(groups, seq!['-']);
    reveal_with_fuel(text::join, 3);
    assert(s.len() > 0);
    assert(hex_groups(s));
}

/// Letters and digits together are a value, also with dashes and underscores.
pub proof fn law_mixed_segment_is_dynamic(s: Seq<char>, digit: int, letter: int)
    requires
        0 <= digit < s.len(),
        0 <= letter < s.len(),
        '0' <= s[digit] <= '9',
        ('a' <= s[letter] <= 'z') || ('A' <= s[letter] <= 'Z'),
        forall|i: int|
            0 <= i < s.len() ==> ('0' <= #[trigger] s[i] <= '9') || ('a' <= s[i] <= 'z') || ('A'
                <= s[i] <= 'Z') || s[i] == '-' || s[i] == '_',
    ensures
        dynamic_segment(s),
{
    let d = |c: char| chars::is_digit(c);
    let a = |c: char| chars::is_letter(c);
    let v = |c: char| chars::is_alphanumeric(c) || c == '-' || c == '_';
    assert(d(s[digit]));
    assert(a(s[letter]));
    assert forall|i: int| 0 <= i < s.len() implies v(#[trigger] s[i]) by {}
    assert(some_char(s, d) && some_char(s, a) && all_chars(s, v));
}

/// A name is no value: neither is a segment without a digit and a dash, nor one with an
/// ASCII character other than letters, digits, dashes and underscores, nor an empty one.
pub proof fn law_name_is_static(s: Seq<char>, odd: int)
    requires
        s.len() == 0 || (forall|i: int|
            0 <= i < s.len() ==> !('0' <= #[trigger] s[i] <= '9') && s[i] != '-') || (0 <= odd
            < s.len() && s[odd] <= '\u{7f}' && !('0' <= s[odd] <= '9') && !('a' <= s[odd] <= 'z')
            && !('A' <= s[odd] <= 'Z') && s[odd] != '-' && s[odd] != '_'),
    ensures
        !dynamic_segment(s),
{
    let d = |c: char| chars::is_digit(c);
    let v = |c: char| chars::is_alphanumeric(c) || c == '-' || c == '_';
    if s.len() > 0 {
        if forall|i: int| 0 <= i < s.len() ==> !('0' <= #[trigger] s[i] <= '9') && s[i] != '-' {
            assert(!d(s[0]));
            assert(!some_char(s, d));
            assert(text::lacks_char(s, '-'));
            text::lemma_find_char_lacking(s, '-');
            assert(text::split(s, '-').len() == 1);
        } else {
            assert(!d(s[odd]));
            assert(!v(s[odd]));
            assert(!all_chars(s, v));
            if hex_groups(s) {
                lemma_hex_groups(s, odd);
            }
        }
    }
}

/// Every character of hexadecimal groups is a hexadecimal digit or a dash.
proof fn lemma_hex_groups(s: Seq<char>, k: int)
    requires
        forall|i: int|
            0 <= i < text::split(s, '-').len() ==> all_chars(
                #[trigger] text::split(s, '-')[i],
                |c: char| chars::is_hex(c),
            ),
        0 <= k < s.len(),
    ensures
        chars::is_hex(s[k]) || s[k] == '-',
    decreases s.len(),
{
    let p = |c: char| chars::is_hex(c);
    text::lemma_find_char(s, '-');
    let i = text::find_char(s, '-');
    let parts = text::split(s, '-');
    if i < s.len() {
        let rest = s.skip(i + 1);
        assert(parts[0] == s.take(i));
        assert(all_chars(parts[0], p));
        if k < i {
            assert(p(parts[0][k]));
        } else if k > i {
            let rp = text::split(rest, '-');
            assert forall|j: int| 0 <= j < rp.len() implies all_chars(#[trigger] rp[j], p) by {
                assert(rp[j] == parts[j + 1]);
            }
            lemma_hex_groups(rest, k - i - 1);
            assert(rest[k - i - 1] == s[k]);
        }
    } else {
        assert(parts[0] == s);
        assert(all_chars(parts[0], p));
        assert(p(s[k]));
    }
}

/// Paths that differ in one segment have the same shape exactly if the segment is a value
/// in one of them. Their queries do not count.
pub proof fn law_one_segment_decides_shape(
    before: Seq<Seq<char>>,
    a: Seq<char>,
    b: Seq<char>,
    after: Seq<Seq<char>>,
)
    requires
        forall|i: int|
            0 <= i < before.len() ==> text::lacks_char(#[trigger] before[i], '/')
                && text::lacks_char(before[i], '?'),
        forall|i: int|
            0 <= i < after.len() ==> text::lacks_char(#[trigger] after[i], '/')
                && text::lacks_char(after[i], '?'),
        text::lacks_char(a, '/') && text::lacks_char(a, '?'),
        text::lacks_char(b, '/') && text::lacks_char(b, '?'),
        a != b,
    ensures
        same_shape(
            text::join(before + seq![a] + after, seq!['/']),
            text::join(before + seq![b] + after, seq!['/']),
        ) == (dynamic_segment(a) || dynamic_segment(b)),
{
    let x = before + seq![a] + after;
    let y = before + seq![b] + after;
    lemma_segments_of_join(x);
    lemma_segments_of_join(y);
    let n = before.len() as int;
    assert(x[n] == a && y[n] == b);
    if dynamic_segment(a) || dynamic_segment(b) {
        assert forall|k: int| 0 <= k < x.len() implies segments_agree(#[trigger] x[k], y[k]) by {
            if k != n {
                assert(x[k] == y[k]);
            }
        }
    } else {
        assert(!segments_agree(x[n], y[n]));
    }
}

/// Paths with different numbers of segments never have the same shape.
pub proof fn law_depth_separates(a: Seq<Seq<char>>, b: Seq<Seq<char>>)
    requires
        a.len() > 0,
        b.len() > 0,
        a.len() != b.len(),
        forall|i: int|
            0 <= i < a.len() ==> text::lacks_char(#[trigger] a[i], '/') && text::lacks_char(
                a[i],
                '?',
            ),
        forall|i: int|
            0 <= i < b.len() ==> text::lacks_char(#[trigger] b[i], '/') && text::lacks_char(
                b[i],
                '?',
            ),
    ensures
        !same_shape(text::join(a, seq!['/']), text::join(b, seq!['/'])),
{
    lemma_segments_of_join(a);
    lemma_segments_of_join(b);
}

proof fn lemma_segments_of_join(parts: Seq<Seq<char>>)
    requires
        parts.len() > 0,
        forall|i: int|
            0 <= i < parts.len() ==> text::lacks_char(#[trigger] parts[i], '/')
                && text::lacks_char(parts[i], '?'),
    ensures
        segments(text::join(parts, seq!['/'])) == parts,
{
    let s = text::join(parts, seq!['/']);
    text::lemma_join_lacks(parts, '/', '?');
    text::lemma_find_char_lacking(s, '?');
    assert(s.take(s.len() as int) =~= s);
    text::lemma_split_join(parts, '/');
}

/// A parameter is what stands before its first `=` and what stands after it; without a
/// `=` it has an empty value.
pub proof fn law_parameter(key: Seq<char>, value: Seq<char>)
    requires
        text::lacks_char(key, '='),
    ensures
        param_of(key + seq!['='] + value) == (key, value),
        param_of(key) == (key, Seq::<char>::empty()),
{
    text::lemma_find_char_after(key, '=', value);
    text::lemma_find_char_lacking(key, '=');
    let kv = key + seq!['='] + value;
    assert(kv.take(key.len() as int) =~= key);
    assert(kv.skip(key.len() as int + 1) =~= value);
    assert(key.take(key.len() as int) =~= key);
}

/// A query has the parameters that stand between its `&`, in their order; by key the last
/// one of a key counts, and there are no others.
pub proof fn law_query_has_its_parameters(parts: Seq<Seq<char>>, k: int)
    requires
        0 <= k < parts.len(),
        forall|i: int| 0 <= i < parts.len() ==> text::lacks_char(#[trigger] parts[i], '&'),
        text::join(parts, seq!['&']).len() > 0,
        forall|j: int| k < j < parts.len() ==> param_of(#[trigger] parts[j]).0 != param_of(
            parts[k],
        ).0,
    ensures
        query_map(text::join(parts, seq!['&'])).contains_key(param_of(parts[k]).0),
        query_map(text::join(parts, seq!['&']))[param_of(parts[k]).0] == param_of(parts[k]).1,
        forall|key: Seq<char>| #[trigger]
            query_map(text::join(parts, seq!['&'])).contains_key(key) ==> exists|i: int|
                0 <= i < parts.len() && param_of(#[trigger] parts[i]).0 == key,
{
    let q = text::join(parts, seq!['&']);
    text::lemma_split_join(parts, '&');
    let ps = params_of(q);
    assert(ps.len() == parts.len());
    assert forall|j: int| k < j < ps.len() implies (#[trigger] ps[j]).0 != ps[k].0 by {
        assert(ps[j] == param_of(parts[j]));
    }
    assert(ps[k] == param_of(parts[k]));
    lemma_params_map_last(ps, k);
    assert forall|key: Seq<char>| #[trigger] query_map(q).contains_key(key) implies exists|i: int|
        0 <= i < parts.len() && param_of(#[trigger] parts[i]).0 == key by {
        let i = choose|i: int| 0 <= i < ps.len() && (#[trigger] ps[i]).0 == key;
        assert(ps[i].0 == key);
        assert(param_of(parts[i]).0 == key);
    }
}

proof fn lemma_params_map_last(ps: Seq<(Seq<char>, Seq<char>)>, k: int)
    requires
        0 <= k < ps.len(),
        forall|j: int| k < j < ps.len() ==> (#[trigger] ps[j]).0 != ps[k].0,
    ensures
        params_map(ps).contains_key(ps[k].0),
        params_map(ps)[ps[k].0] == ps[k].1,
        forall|key: Seq<char>| #[trigger]
            params_map(ps).contains_key(key) ==> exists|i: int|
                0 <= i < ps.len() && (#[trigger] ps[i]).0 == key,
    decreases ps.len(),
{
    lemma_params_map_keys(ps);
    if k < ps.len() - 1 {
        let init = ps.drop_last();
        assert forall|j: int| k < j < init.len() implies (#[trigger] init[j]).0 != init[k].0 by {
            assert(init[j] == ps[j]);
        }
        lemma_params_map_last(init, k);
        assert(ps[ps.len() - 1].0 != ps[k].0);
    }
}

proof fn lemma_params_map_keys(ps: Seq<(Seq<char>, Seq<char>)>)
    ensures
        forall|key: Seq<char>| #[trigger]
            params_map(ps).contains_key(key) ==> exists|i: int|
                0 <= i < ps.len() && (#[trigger] ps[i]).0 == key,
    decreases ps.len(),
{
    if ps.len() > 0 {
        let init = ps.drop_last();
        lemma_params_map_keys(init);
        assert forall|key: Seq<char>| #[trigger] params_map(ps).contains_key(key) implies exists|
            i: int,
        | 0 <= i < ps.len() && (#[trigger] ps[i]).0 == key by {
            if ps.last().0 == key {
                assert(ps[ps.len() - 1].0 == key);
            } else {
                assert(params_map(init).contains_key(key));
                let i = choose|i: int| 0 <= i < init.len() && (#[trigger] init[i]).0 == key;
                assert(ps[i].0 == key);
            }
        }
    }
}

/// A URI without a query is its own canonical form.
pub proof fn law_plain_path_stays(uri: Seq<char>)
    requires
        text::lacks_char(uri, '?'),
    ensures
        normalized(uri) == uri,
{
    text::lemma_find_char_lacking(uri, '?');
}

} // verus!
