//! Which recorded entry answers a request.
use crate::dup::Dup;
use crate::io::ServiceMocks;
use crate::json;
use crate::json::Json;
use crate::json::JsonModel;
use crate::ordmap;
use crate::ordmap::OrdMap;
use crate::substitute;
use crate::substitute::apply_substitutions_to_json;
use crate::substitute::collect_value_diffs;
use crate::substitute::trace_changes;
use crate::text;
use crate::text::same_text;
use crate::text::split_text;
use crate::types::MockEntry;
use crate::types::MockEntryView;
use crate::types::MockRequestView;
use crate::types::MockResponseView;
use crate::types::MockSequence;
use crate::types::MockSequenceView;
use crate::types::SequenceResponse;
use crate::types::GLOBAL_TENANT;
use crate::uri;
use crate::uri::parse_query;
use crate::uri::split_uri;
pub use crate::substitute::replace_at_word_boundary;
pub use crate::uri::is_dynamic_segment;
pub use crate::uri::normalize_uri;
pub use crate::uri::paths_match;
use vstd::prelude::*;

verus! {

// ─── Exact match ─────────────────────────────────────────────────────────────

/// The entry of a service recorded for this method, URI, tenant and body.
pub open spec fn exact_entry(
    mocks: Map<(Seq<char>, Seq<char>, Seq<char>), MockEntryView>,
    method: Seq<char>,
    uri: Seq<char>,
    tenant: Seq<char>,
    body: Seq<char>,
) -> Option<MockEntryView> {
    let key = (method, uri, tenant);
    if mocks.contains_key(key) && mocks[key].request.body == body {
        Some(mocks[key])
    } else {
        None
    }
}

/// The entry recorded for this method, URI, tenant and body.
pub fn find_exact_for_tenant(
    mocks: &ServiceMocks,
    method: &str,
    uri: &str,
    tenant: &str,
    body: &str,
) -> (r: Option<MockEntry>)
    ensures
        r.deep_view() == exact_entry(mocks.deep_view(), method@, uri@, tenant@, body@),
{
    let key = (method.to_owned(), uri.to_owned(), tenant.to_owned());
    match mocks.get(&key) {
        Some(entry) => {
            if same_text(entry.request.body.as_str(), body) {
                Some(entry.dup())
            } else {
                None
            }
        },
        None => None,
    }
}

/// The entry recorded for this method, URI and body under the global tenant.
pub fn find_exact(mocks: &ServiceMocks, method: &str, uri: &str, body: &str) -> (r: Option<
    MockEntry,
>)
    ensures
        r.deep_view() == exact_entry(mocks.deep_view(), method@, uri@, GLOBAL_TENANT@, body@),
{
    find_exact_for_tenant(mocks, method, uri, GLOBAL_TENANT, body)
}

/// A request is matched exactly by the entry under its method, URI and tenant, and only
/// if its body is the recorded one.
pub proof fn law_exact_match(
    mocks: Map<(Seq<char>, Seq<char>, Seq<char>), MockEntryView>,
    method: Seq<char>,
    uri: Seq<char>,
    tenant: Seq<char>,
    body: Seq<char>,
)
    ensures
        exact_entry(mocks, method, uri, tenant, body) is Some <==> mocks.contains_key(
            (method, uri, tenant),
        ) && mocks[(method, uri, tenant)].request.body == body,
        exact_entry(mocks, method, uri, tenant, body) is Some ==> exact_entry(
            mocks,
            method,
            uri,
            tenant,
            body,
        )->0 == mocks[(method, uri, tenant)],
{
}

// ─── Structural match ────────────────────────────────────────────────────────

/// The last of `mocks` in `p`.
pub open spec fn last_in(
    mocks: Seq<MockEntryView>,
    p: spec_fn(MockEntryView) -> bool,
) -> Option<MockEntryView>
    decreases mocks.len(),
{
    if mocks.len() == 0 {
        None
    } else if p(mocks.last()) {
        Some(mocks.last())
    } else {
        last_in(mocks.drop_last(), p)
    }
}

/// What `last_in` finds is in the sequence and in `p`, and nothing in `p` stands
/// after it; it finds nothing only if nothing is in `p`.
pub proof fn lemma_last_in(mocks: Seq<MockEntryView>, p: spec_fn(MockEntryView) -> bool)
    ensures
        match last_in(mocks, p) {
            Some(m) => p(m) && exists|i: int|
                0 <= i < mocks.len() && #[trigger] mocks[i] == m && forall|j: int|
                    i < j < mocks.len() ==> !p(#[trigger] mocks[j]),
            None => forall|i: int| 0 <= i < mocks.len() ==> !p(#[trigger] mocks[i]),
        },
    decreases mocks.len(),
{
    if mocks.len() > 0 {
        let init = mocks.drop_last();
        if p(mocks.last()) {
            assert(mocks[mocks.len() - 1] == mocks.last());
        } else {
            lemma_last_in(init, p);
            match last_in(init, p) {
                Some(m) => {
                    let i = choose|i: int|
                        0 <= i < init.len() && #[trigger] init[i] == m && forall|j: int|
                            i < j < init.len() ==> !p(#[trigger] init[j]);
                    assert(mocks[i] == m);
                    assert forall|j: int| i < j < mocks.len() implies !p(#[trigger] mocks[j]) by {
                        if j < init.len() {
                            assert(init[j] == mocks[j]);
                        }
                    }
                },
                None => {
                    assert forall|i: int| 0 <= i < mocks.len() implies !p(#[trigger] mocks[i]) by {
                        if i < init.len() {
                            assert(init[i] == mocks[i]);
                        }
                    }
                },
            }
        }
    }
}

/// The entry was recorded for this method and URI.
pub open spec fn same_endpoint(
    method: Seq<char>,
    uri: Seq<char>,
) -> spec_fn(MockEntryView) -> bool {
    |m: MockEntryView| m.request.method == method && m.request.uri == uri
}

/// The entry was recorded for this method and a URI of the same shape.
pub open spec fn similar_endpoint(
    method: Seq<char>,
    uri: Seq<char>,
) -> spec_fn(MockEntryView) -> bool {
    |m: MockEntryView| m.request.method == method && uri::same_shape(m.request.uri, uri)
}

/// The last entry for this method and URI, else the last for a URI of the same
/// shape.
pub open spec fn structural_entry(
    mocks: Seq<MockEntryView>,
    method: Seq<char>,
    uri: Seq<char>,
) -> Option<MockEntryView> {
    match last_in(mocks, same_endpoint(method, uri)) {
        Some(m) => Some(m),
        None => last_in(mocks, similar_endpoint(method, uri)),
    }
}

fn last_same_endpoint<'a>(mocks: &'a [MockEntry], method: &str, uri: &str) -> (r: Option<
    &'a MockEntry,
>)
    ensures
        match r {
            Some(m) => last_in(mocks.deep_view(), same_endpoint(method@, uri@)) == Some(
                m.deep_view(),
            ),
            None => last_in(mocks.deep_view(), same_endpoint(method@, uri@)) is None,
        },
{
    let ghost p = same_endpoint(method@, uri@);
    let ghost all = mocks.deep_view();
    let mut i: usize = mocks.len();
    assert(all.take(i as int) =~= all);
    while i > 0
        invariant
            i <= mocks@.len(),
            all == mocks.deep_view(),
            p == same_endpoint(method@, uri@),
            last_in(all, p) == last_in(all.take(i as int), p),
        decreases i,
    {
        let m = &mocks[i - 1];
        proof {
            let t = all.take(i as int);
            assert(t.last() == m.deep_view());
            assert(t.drop_last() =~= all.take(i - 1));
        }
        if same_text(m.request.method.as_str(), method) && same_text(m.request.uri.as_str(), uri) {
            return Some(m);
        }
        i -= 1;
    }
    None
}

fn last_similar_endpoint<'a>(mocks: &'a [MockEntry], method: &str, uri: &str) -> (r: Option<
    &'a MockEntry,
>)
    ensures
        match r {
            Some(m) => last_in(mocks.deep_view(), similar_endpoint(method@, uri@)) == Some(
                m.deep_view(),
            ),
            None => last_in(mocks.deep_view(), similar_endpoint(method@, uri@)) is None,
        },
{
    let ghost p = similar_endpoint(method@, uri@);
    let ghost all = mocks.deep_view();
    let mut i: usize = mocks.len();
    assert(all.take(i as int) =~= all);
    while i > 0
        invariant
            i <= mocks@.len(),
            all == mocks.deep_view(),
            p == similar_endpoint(method@, uri@),
            last_in(all, p) == last_in(all.take(i as int), p),
        decreases i,
    {
        let m = &mocks[i - 1];
        proof {
            let t = all.take(i as int);
            assert(t.last() == m.deep_view());
            assert(t.drop_last() =~= all.take(i - 1));
        }
        if same_text(m.request.method.as_str(), method) && paths_match(
            m.request.uri.as_str(),
            uri,
        ) {
            return Some(m);
        }
        i -= 1;
    }
    None
}

/// The best structural match: the last entry recorded for this method and URI,
/// else the last one whose URI has the same shape.
pub fn find_structural(mocks: &[MockEntry], method: &str, uri: &str) -> (r: Option<MockEntry>)
    ensures
        r.deep_view() == structural_entry(mocks.deep_view(), method@, uri@),
{
    match last_same_endpoint(mocks, method, uri) {
        Some(m) => Some(m.dup()),
        None => match last_similar_endpoint(mocks, method, uri) {
            Some(m) => Some(m.dup()),
            None => None,
        },
    }
}

/// The best structural match is the last entry for this method and URI, whatever entries
/// for similar URIs stand after it.
pub proof fn law_same_uri_matches_first(
    mocks: Seq<MockEntryView>,
    method: Seq<char>,
    uri: Seq<char>,
    k: int,
)
    requires
        0 <= k < mocks.len(),
        mocks[k].request.method == method,
        mocks[k].request.uri == uri,
        forall|j: int|
            k < j < mocks.len() ==> !((#[trigger] mocks[j]).request.method == method
                && mocks[j].request.uri == uri),
    ensures
        structural_entry(mocks, method, uri) == Some(mocks[k]),
{
    lemma_last_at(mocks, same_endpoint(method, uri), k);
}

/// Without an entry for the URI itself the last one for a URI of the same shape is the
/// best structural match; without that there is none.
pub proof fn law_same_shape_matches_next(
    mocks: Seq<MockEntryView>,
    method: Seq<char>,
    uri: Seq<char>,
)
    requires
        forall|j: int|
            0 <= j < mocks.len() ==> !((#[trigger] mocks[j]).request.method == method
                && mocks[j].request.uri == uri),
    ensures
        forall|k: int| #[trigger]
            closest_at(mocks, method, uri, k) ==> structural_entry(mocks, method, uri) == Some(
                mocks[k],
            ),
        (forall|j: int|
            0 <= j < mocks.len() ==> !((#[trigger] mocks[j]).request.method == method
                && uri::same_shape(mocks[j].request.uri, uri))) ==> structural_entry(
            mocks,
            method,
            uri,
        ) is None,
{
    let p = same_endpoint(method, uri);
    let q = similar_endpoint(method, uri);
    lemma_last_in(mocks, p);
    lemma_last_in(mocks, q);
    assert forall|k: int| #[trigger] closest_at(mocks, method, uri, k) implies structural_entry(
        mocks,
        method,
        uri,
    ) == Some(mocks[k]) by {
        lemma_last_at(mocks, q, k);
    }
}

proof fn lemma_last_at(mocks: Seq<MockEntryView>, p: spec_fn(MockEntryView) -> bool, k: int)
    requires
        0 <= k < mocks.len(),
        p(mocks[k]),
        forall|j: int| k < j < mocks.len() ==> !p(#[trigger] mocks[j]),
    ensures
        last_in(mocks, p) == Some(mocks[k]),
    decreases mocks.len(),
{
    if k < mocks.len() - 1 {
        let init = mocks.drop_last();
        assert(!p(mocks[mocks.len() - 1]));
        assert forall|j: int| k < j < init.len() implies !p(#[trigger] init[j]) by {
            assert(init[j] == mocks[j]);
        }
        lemma_last_at(init, p, k);
    }
}

// ─── Smart swap ──────────────────────────────────────────────────────────────

/// The pairs of differing path segments, recorded and incoming.
pub open spec fn segment_changes(rec: Seq<Seq<char>>, inc: Seq<Seq<char>>, n: nat) -> Seq<
    (Seq<char>, Seq<char>),
>
    decreases n,
{
    if n == 0 {
        Seq::empty()
    } else {
        let before = segment_changes(rec, inc, (n - 1) as nat);
        if rec[n - 1] != inc[n - 1] {
            before.push((rec[n - 1], inc[n - 1]))
        } else {
            before
        }
    }
}

/// The pairs of differing values of the first `n` recorded parameters that the
/// incoming query has too.
pub open spec fn param_changes(
    rec: Seq<(Seq<char>, Seq<char>)>,
    inc: Map<Seq<char>, Seq<char>>,
    n: nat,
) -> Seq<(Seq<char>, Seq<char>)>
    decreases n,
{
    if n == 0 {
        Seq::empty()
    } else {
        let before = param_changes(rec, inc, (n - 1) as nat);
        let (key, value) = rec[n - 1];
        if inc.contains_key(key) && value != inc[key] {
            before.push((value, inc[key]))
        } else {
            before
        }
    }
}

/// The values that differ between two URIs: first in the path, then in the query
/// parameters that both have, by ascending key.
pub open spec fn uri_changes(recorded: Seq<char>, incoming: Seq<char>) -> Seq<
    (Seq<char>, Seq<char>),
> {
    let rec = uri::segments(recorded);
    let params = ordmap::sorted_pairs::<String, Seq<char>>(
        uri::query_map(uri::query_of(recorded)),
    );
    segment_changes(rec, uri::segments(incoming), rec.len()) + param_changes(
        params,
        uri::query_map(uri::query_of(incoming)),
        params.len(),
    )
}

/// The strings that differ between two request bodies, if both are JSON.
pub open spec fn body_changes(recorded: Seq<char>, incoming: Seq<char>) -> Seq<
    (Seq<char>, Seq<char>),
> {
    if recorded.len() > 0 && incoming.len() > 0 && recorded != incoming {
        match (json::json_in(recorded), json::json_in(incoming)) {
            (Some(r), Some(i)) => substitute::value_diffs(r, i),
            _ => Seq::empty(),
        }
    } else {
        Seq::empty()
    }
}

/// The entry that a request can be answered from: the last one for this method
/// whose URI is this one or has its shape.
pub open spec fn swap_source(
    mocks: Seq<MockEntryView>,
    method: Seq<char>,
    uri: Seq<char>,
) -> Option<MockEntryView> {
    last_in(mocks, similar_endpoint(method, uri))
}

/// The answer that `recorded` gives to a request with this URI and body, once the
/// changed values are known: its response with the traceable ones substituted.
/// Nothing if the request differs and no changed value is traceable.
pub open spec fn swapped_with(
    recorded: MockEntryView,
    uri: Seq<char>,
    body: Seq<char>,
    changes: Seq<(Seq<char>, Seq<char>)>,
) -> Option<MockEntryView> {
    let subs = substitute::traced(changes, recorded.response.body);
    if subs == Map::<Seq<char>, Seq<char>>::empty() && (recorded.request.uri != uri
        || recorded.request.body != body) {
        None
    } else {
        Some(
            MockEntryView {
                response: MockResponseView {
                    body: substitute::body_substituted(recorded.response.body, subs),
                    ..recorded.response
                },
                ..recorded
            },
        )
    }
}

/// The answer of a smart swap.
pub open spec fn smart_swap(
    mocks: Seq<MockEntryView>,
    method: Seq<char>,
    uri: Seq<char>,
    body: Seq<char>,
) -> Option<MockEntryView> {
    match swap_source(mocks, method, uri) {
        Some(recorded) => swapped_with(
            recorded,
            uri,
            body,
            uri_changes(recorded.request.uri, uri) + body_changes(recorded.request.body, body),
        ),
        None => None,
    }
}

/// The values that differ between two URIs of the same shape.
pub fn collect_uri_changes(recorded: &str, incoming: &str) -> (r: Vec<(String, String)>)
    requires
        uri::same_shape(recorded@, incoming@),
    ensures
        r.deep_view() == uri_changes(recorded@, incoming@),
{
    let (rec_path, rec_qs) = split_uri(recorded);
    let (inc_path, inc_qs) = split_uri(incoming);
    let rec_segs = split_text(rec_path.as_str(), '/');
    let inc_segs = split_text(inc_path.as_str(), '/');
    let ghost rs = rec_segs.deep_view();
    let ghost is = inc_segs.deep_view();
    let mut out: Vec<(String, String)> = Vec::new();
    let mut k: usize = 0;
    assert(out.deep_view() =~= Seq::empty());
    while k < rec_segs.len()
        invariant
            rs == rec_segs.deep_view(),
            is == inc_segs.deep_view(),
            rec_segs@.len() == inc_segs@.len(),
            k <= rec_segs@.len(),
            out.deep_view() == segment_changes(rs, is, k as nat),
        decreases rec_segs@.len() - k,
    {
        let ghost before = out.deep_view();
        if rec_segs[k] != inc_segs[k] {
            out.push((rec_segs[k].clone(), inc_segs[k].clone()));
            assert(out.deep_view() =~= before.push((rs[k as int], is[k as int])));
        }
        k += 1;
    }
    let rec_params = parse_query(rec_qs.as_str());
    let inc_params = parse_query(inc_qs.as_str());
    let n = rec_params.len();
    let ghost ps = ordmap::deep_pairs(rec_params.pairs());
    let ghost im = inc_params.deep_view();
    let ghost segs = out.deep_view();
    proof {
        ordmap::lemma_deep_pairs::<String, String>(rec_params.pairs());
        assert(segs + param_changes(ps, im, 0) =~= segs);
    }
    let mut j: usize = 0;
    while j < n
        invariant
            n == rec_params.pairs().len(),
            j <= n,
            ps == ordmap::deep_pairs(rec_params.pairs()),
            im == inc_params.deep_view(),
            out.deep_view() == segs + param_changes(ps, im, j as nat),
        decreases n - j,
    {
        let rec_val = rec_params.value_at(j);
        let ghost before = out.deep_view();
        if let Some(inc_val) = inc_params.get(rec_params.key_at(j)) {
            if *rec_val != *inc_val {
                out.push((rec_val.clone(), inc_val.clone()));
                assert(out.deep_view() =~= before.push((rec_val@, inc_val@)));
            }
        }
        j += 1;
        assert(out.deep_view() =~= segs + param_changes(ps, im, j as nat));
    }
    out
}

/// The answer that `recorded` gives to a request with this URI and body, given the
/// values that changed.
pub fn swap_response(
    recorded: &MockEntry,
    uri: &str,
    body: &str,
    changes: &Vec<(String, String)>,
) -> (r: Option<MockEntry>)
    ensures
        r.deep_view() == swapped_with(
            recorded.deep_view(),
            uri@,
            body@,
            changes.deep_view(),
        ),
{
    let subs = trace_changes(changes, recorded.response.body.as_str());
    let nothing = subs.is_empty();
    proof {
        if nothing {
            assert(subs.deep_view() =~= Map::empty());
        } else if subs.deep_view() == Map::<Seq<char>, Seq<char>>::empty() {
            assert(subs.deep_view().dom() =~= subs@.dom());
            assert(subs@ =~= Map::empty());
        }
    }
    if nothing && (!same_text(recorded.request.uri.as_str(), uri) || !same_text(
        recorded.request.body.as_str(),
        body,
    )) {
        return None;
    }
    let swapped_body = apply_substitutions_to_json(recorded.response.body.as_str(), &subs);
    let mut result = recorded.dup();
    result.response.body = swapped_body;
    Some(result)
}

/// Smart swap: answers from the last entry recorded for this method and a URI of
/// the same shape, with the values that changed between the requests substituted
/// in the response where they stand in it.
pub fn find_smart_swap(mocks: &[MockEntry], method: &str, uri: &str, body: &str) -> (r: Option<
    MockEntry,
>)
    ensures
        r.deep_view() == smart_swap(mocks.deep_view(), method@, uri@, body@),
{
    let recorded = match last_similar_endpoint(mocks, method, uri) {
        Some(m) => m,
        None => {
            return None;
        },
    };
    proof {
        lemma_last_in(mocks.deep_view(), similar_endpoint(method@, uri@));
    }
    let mut changes = collect_uri_changes(recorded.request.uri.as_str(), uri);
    let ghost uc = changes.deep_view();
    let rec_body = recorded.request.body.as_str();
    if !rec_body.is_empty() && !body.is_empty() && !same_text(rec_body, body) {
        match (Json::parse(rec_body), Json::parse(body)) {
            (Some(rec_json), Some(inc_json)) => {
                collect_value_diffs(&rec_json, &inc_json, &mut changes);
            },
            _ => {
                assert(changes.deep_view() =~= uc + Seq::empty());
            },
        }
    } else {
        assert(changes.deep_view() =~= uc + Seq::empty());
    }
    assert(changes.deep_view() == uc + body_changes(rec_body@, body@));
    swap_response(recorded, uri, body, &changes)
}

/// A swap never answers from an entry for another endpoint: the entry has the same
/// method and as many path segments, and where a segment differs, one of the two
/// holds a value.
pub proof fn law_swap_stays_on_endpoint(
    mocks: Seq<MockEntryView>,
    method: Seq<char>,
    uri: Seq<char>,
    body: Seq<char>,
)
    ensures
        match smart_swap(mocks, method, uri, body) {
            Some(answer) => answer.request.method == method && uri::same_shape(
                answer.request.uri,
                uri,
            ) && exists|i: int|
                0 <= i < mocks.len() && (#[trigger] mocks[i]).request == answer.request
                    && mocks[i].response.status == answer.response.status
                    && mocks[i].response.headers == answer.response.headers,
            None => true,
        },
{
    let p = similar_endpoint(method, uri);
    lemma_last_in(mocks, p);
}

/// A swap on a request that was itself recorded last gives the recorded response
/// as it is.
pub proof fn law_swap_keeps_recorded_request(
    mocks: Seq<MockEntryView>,
    method: Seq<char>,
    uri: Seq<char>,
    body: Seq<char>,
)
    requires
        swap_source(mocks, method, uri) is Some,
        swap_source(mocks, method, uri)->0.request.uri == uri,
        swap_source(mocks, method, uri)->0.request.body == body,
    ensures
        smart_swap(mocks, method, uri, body) == swap_source(mocks, method, uri),
{
    let recorded = swap_source(mocks, method, uri)->0;
    let segs = uri::segments(uri);
    lemma_no_segment_changes(segs, segs.len());
    let qm = uri::query_map(uri::query_of(uri));
    let ps = ordmap::sorted_pairs::<String, Seq<char>>(qm);
    lemma_query_map_is_pairs(uri::query_of(uri));
    lemma_no_param_changes(ps, ps.len());
    assert(uri_changes(uri, uri) + body_changes(body, body) =~= Seq::empty());
}

proof fn lemma_no_segment_changes(segs: Seq<Seq<char>>, n: nat)
    ensures
        segment_changes(segs, segs, n) == Seq::<(Seq<char>, Seq<char>)>::empty(),
    decreases n,
{
    if n > 0 {
        lemma_no_segment_changes(segs, (n - 1) as nat);
    }
}

/// The parameters of a query have sorted entries.
proof fn lemma_query_map_is_pairs(query: Seq<char>)
    ensures
        ({
            let ps = ordmap::sorted_pairs::<String, Seq<char>>(uri::query_map(query));
            &&& ordmap::ascending::<String, Seq<char>>(ps)
            &&& ordmap::pairs_map(ps) == uri::query_map(query)
        }),
{
    let m = uri::query_map(query);
    if query.len() > 0 {
        lemma_params_map_has_pairs(uri::params_of(query));
    } else {
        let e = Seq::<(Seq<char>, Seq<char>)>::empty();
        assert(ordmap::pairs_map(e) =~= m);
        assert(ordmap::ascending::<String, Seq<char>>(e));
    }
}

proof fn lemma_params_map_has_pairs(ps: Seq<(Seq<char>, Seq<char>)>)
    ensures
        exists|s: Seq<(Seq<char>, Seq<char>)>| #[trigger]
            ordmap::ascending::<String, Seq<char>>(s) && ordmap::pairs_map(s) == uri::params_map(
                ps,
            ),
    decreases ps.len(),
{
    if ps.len() == 0 {
        let e = Seq::<(Seq<char>, Seq<char>)>::empty();
        assert(ordmap::pairs_map(e) =~= uri::params_map(ps));
        assert(ordmap::ascending::<String, Seq<char>>(e));
    } else {
        let init = ps.drop_last();
        lemma_params_map_has_pairs(init);
        let s = choose|s: Seq<(Seq<char>, Seq<char>)>| #[trigger]
            ordmap::ascending::<String, Seq<char>>(s) && ordmap::pairs_map(s) == uri::params_map(
                init,
            );
        ordmap::lemma_insert_has_pairs::<String, Seq<char>>(s, ps.last().0, ps.last().1);
    }
}

proof fn lemma_no_param_changes(ps: Seq<(Seq<char>, Seq<char>)>, n: nat)
    requires
        ordmap::ascending::<String, Seq<char>>(ps),
        n <= ps.len(),
    ensures
        param_changes(ps, ordmap::pairs_map(ps), n) == Seq::<(Seq<char>, Seq<char>)>::empty(),
    decreases n,
{
    if n > 0 {
        lemma_no_param_changes(ps, (n - 1) as nat);
        ordmap::lemma_pairs_map::<String, Seq<char>>(ps);
        assert(ordmap::pairs_map(ps)[ps[n - 1].0] == ps[n - 1].1);
    }
}

/// Between a recorded request and one with this URI and body the value `from` changed to
/// `to`: as a segment of the path, as the value of a query parameter that both have, or
/// as a string at one place of both bodies, if they are JSON.
pub open spec fn value_changed(
    recorded: MockRequestView,
    uri: Seq<char>,
    body: Seq<char>,
    from: Seq<char>,
    to: Seq<char>,
) -> bool {
    &&& from != to
    &&& {
        ||| exists|k: int|
            0 <= k < uri::segments(recorded.uri).len() && #[trigger] uri::segments(recorded.uri)[k]
                == from && uri::segments(uri)[k] == to
        ||| exists|key: Seq<char>|
            {
                &&& #[trigger] uri::query_map(uri::query_of(recorded.uri)).contains_key(key)
                &&& uri::query_map(uri::query_of(uri)).contains_key(key)
                &&& uri::query_map(uri::query_of(recorded.uri))[key] == from
                &&& uri::query_map(uri::query_of(uri))[key] == to
            }
        ||| {
            &&& recorded.body.len() > 0 && body.len() > 0
            &&& json::json_in(recorded.body) is Some && json::json_in(body) is Some
            &&& exists|place: Seq<substitute::Place>| #[trigger]
                substitute::string_at(json::json_in(recorded.body)->0, place, from)
                    && substitute::string_at(json::json_in(body)->0, place, to)
        }
    }
}

/// If the text is JSON, no object of the document has two members of one key, as is so
/// of every document that `serde_json` reads.
pub open spec fn sound_json(text: Seq<char>) -> bool {
    json::json_in(text) is Some ==> substitute::distinct_keys(json::json_in(text)->0)
}

proof fn lemma_segment_changes(rec: Seq<Seq<char>>, inc: Seq<Seq<char>>, n: nat)
    requires
        n <= rec.len(),
    ensures
        forall|d: (Seq<char>, Seq<char>)| #[trigger]
            segment_changes(rec, inc, n).contains(d) <==> (d.0 != d.1 && exists|k: int|
                0 <= k < n && #[trigger] rec[k] == d.0 && inc[k] == d.1),
    decreases n,
{
    let all = segment_changes(rec, inc, n);
    if n > 0 {
        let before = segment_changes(rec, inc, (n - 1) as nat);
        lemma_segment_changes(rec, inc, (n - 1) as nat);
        assert forall|d: (Seq<char>, Seq<char>)| #[trigger] all.contains(d) <==> (d.0 != d.1
            && exists|k: int| 0 <= k < n && #[trigger] rec[k] == d.0 && inc[k] == d.1) by {
            if all.contains(d) {
                let i = all.index_of(d);
                if i < before.len() {
                    assert(before[i] == d);
                    assert(before.contains(d));
                    let k = choose|k: int|
                        0 <= k < n - 1 && #[trigger] rec[k] == d.0 && inc[k] == d.1;
                    assert(rec[k] == d.0);
                } else {
                    assert(rec[n - 1] == d.0);
                }
            }
            if d.0 != d.1 && exists|k: int|
                0 <= k < n && #[trigger] rec[k] == d.0 && inc[k] == d.1 {
                let k = choose|k: int| 0 <= k < n && #[trigger] rec[k] == d.0 && inc[k] == d.1;
                if k == n - 1 {
                    assert(all[all.len() - 1] == d);
                } else {
                    assert(rec[k] == d.0);
                    assert(before.contains(d));
                    let i = before.index_of(d);
                    assert(all[i] == d);
                }
            }
        }
    }
}

proof fn lemma_param_changes(
    rec: Seq<(Seq<char>, Seq<char>)>,
    inc: Map<Seq<char>, Seq<char>>,
    n: nat,
)
    requires
        n <= rec.len(),
    ensures
        forall|d: (Seq<char>, Seq<char>)| #[trigger]
            param_changes(rec, inc, n).contains(d) <==> (d.0 != d.1 && exists|k: int|
                0 <= k < n && (#[trigger] rec[k]).1 == d.0 && inc.contains_key(rec[k].0)
                    && inc[rec[k].0] == d.1),
    decreases n,
{
    let all = param_changes(rec, inc, n);
    if n > 0 {
        let before = param_changes(rec, inc, (n - 1) as nat);
        lemma_param_changes(rec, inc, (n - 1) as nat);
        assert forall|d: (Seq<char>, Seq<char>)| #[trigger] all.contains(d) <==> (d.0 != d.1
            && exists|k: int|
            0 <= k < n && (#[trigger] rec[k]).1 == d.0 && inc.contains_key(rec[k].0)
                && inc[rec[k].0] == d.1) by {
            if all.contains(d) {
                let i = all.index_of(d);
                if i < before.len() {
                    assert(before[i] == d);
                    assert(before.contains(d));
                    let k = choose|k: int|
                        0 <= k < n - 1 && (#[trigger] rec[k]).1 == d.0 && inc.contains_key(rec[k].0)
                            && inc[rec[k].0] == d.1;
                    assert(rec[k].1 == d.0);
                } else {
                    assert(rec[n - 1].1 == d.0);
                }
            }
            if d.0 != d.1 && exists|k: int|
                0 <= k < n && (#[trigger] rec[k]).1 == d.0 && inc.contains_key(rec[k].0)
                    && inc[rec[k].0] == d.1 {
                let k = choose|k: int|
                    0 <= k < n && (#[trigger] rec[k]).1 == d.0 && inc.contains_key(rec[k].0)
                        && inc[rec[k].0] == d.1;
                if k == n - 1 {
                    assert(all[all.len() - 1] == d);
                } else {
                    assert(rec[k].1 == d.0);
                    assert(before.contains(d));
                    let i = before.index_of(d);
                    assert(all[i] == d);
                }
            }
        }
    }
}

/// The changes that a swap goes by are the values that changed.
proof fn lemma_changes(
    recorded: MockRequestView,
    uri: Seq<char>,
    body: Seq<char>,
    from: Seq<char>,
    to: Seq<char>,
)
    requires
        sound_json(body),
    ensures
        (uri_changes(recorded.uri, uri) + body_changes(recorded.body, body)).contains((from, to))
            == value_changed(recorded, uri, body, from, to),
{
    let d = (from, to);
    let rec = uri::segments(recorded.uri);
    let inc = uri::segments(uri);
    let rq = uri::query_map(uri::query_of(recorded.uri));
    let iq = uri::query_map(uri::query_of(uri));
    let ps = ordmap::sorted_pairs::<String, Seq<char>>(rq);
    let sc = segment_changes(rec, inc, rec.len());
    let pc = param_changes(ps, iq, ps.len());
    let bc = body_changes(recorded.body, body);
    let all = uri_changes(recorded.uri, uri) + bc;
    lemma_segment_changes(rec, inc, rec.len());
    lemma_query_map_is_pairs(uri::query_of(recorded.uri));
    ordmap::lemma_pairs_map::<String, Seq<char>>(ps);
    lemma_param_changes(ps, iq, ps.len());
    assert(all.contains(d) == (sc.contains(d) || pc.contains(d) || bc.contains(d))) by {
        if all.contains(d) {
            let i = all.index_of(d);
            if i < sc.len() {
                assert(sc[i] == d);
            } else if i < sc.len() + pc.len() {
                assert(pc[i - sc.len()] == d);
            } else {
                assert(bc[i - sc.len() - pc.len()] == d);
            }
        }
        if sc.contains(d) {
            assert(all[sc.index_of(d)] == d);
        }
        if pc.contains(d) {
            assert(all[sc.len() + pc.index_of(d)] == d);
        }
        if bc.contains(d) {
            assert(all[sc.len() + pc.len() + bc.index_of(d)] == d);
        }
    }
    if pc.contains(d) {
        let k = choose|k: int|
            0 <= k < ps.len() && (#[trigger] ps[k]).1 == d.0 && iq.contains_key(ps[k].0)
                && iq[ps[k].0] == d.1;
        assert(rq.contains_key(ps[k].0));
    }
    if from != to && exists|key: Seq<char>| #[trigger]
        rq.contains_key(key) && iq.contains_key(key) && rq[key] == from && iq[key] == to {
        let key = choose|key: Seq<char>| #[trigger]
            rq.contains_key(key) && iq.contains_key(key) && rq[key] == from && iq[key] == to;
        assert(ordmap::has_key(ps, key));
        let k = ordmap::key_index(ps, key);
        assert(ps[k].0 == key);
        assert(ps[k].1 == from);
        assert(pc.contains(d));
    }
    if bc.contains(d) {
        substitute::law_found_strings_differ(
            json::json_in(recorded.body)->0,
            json::json_in(body)->0,
            from,
            to,
        );
    }
    if from != to && recorded.body.len() > 0 && body.len() > 0 && json::json_in(recorded.body)
        is Some && json::json_in(body) is Some {
        let r = json::json_in(recorded.body)->0;
        let i = json::json_in(body)->0;
        if exists|place: Seq<substitute::Place>| #[trigger]
            substitute::string_at(r, place, from) && substitute::string_at(i, place, to) {
            let place = choose|place: Seq<substitute::Place>| #[trigger]
                substitute::string_at(r, place, from) && substitute::string_at(i, place, to);
            if recorded.body == body {
                substitute::lemma_one_string_at(i, place, from, to);
            }
            substitute::law_differing_strings_are_found(r, i, place, from, to);
        }
    }
}

/// The entry at `k` is the last one for this method and a URI of this shape.
pub open spec fn closest_at(
    mocks: Seq<MockEntryView>,
    method: Seq<char>,
    uri: Seq<char>,
    k: int,
) -> bool {
    &&& 0 <= k < mocks.len()
    &&& mocks[k].request.method == method && uri::same_shape(mocks[k].request.uri, uri)
    &&& forall|j: int|
        k < j < mocks.len() ==> !((#[trigger] mocks[j]).request.method == method && uri::same_shape(
            mocks[j].request.uri,
            uri,
        ))
}

proof fn lemma_closest(mocks: Seq<MockEntryView>, method: Seq<char>, uri: Seq<char>, k: int)
    requires
        closest_at(mocks, method, uri, k),
    ensures
        swap_source(mocks, method, uri) == Some(mocks[k]),
{
    let p = similar_endpoint(method, uri);
    lemma_last_in(mocks, p);
    assert(p(mocks[k]));
    let m = last_in(mocks, p)->0;
    let i = choose|i: int|
        0 <= i < mocks.len() && #[trigger] mocks[i] == m && forall|j: int|
            i < j < mocks.len() ==> !p(#[trigger] mocks[j]);
    assert(mocks[i] == m);
    if i < k {
        assert(!p(mocks[k]));
    } else if i > k {
        assert(p(mocks[i]));
    }
}

/// Some value of the recorded response changed.
pub open spec fn traceable(recorded: MockEntryView, uri: Seq<char>, body: Seq<char>) -> bool {
    exists|from: Seq<char>, to: Seq<char>| #[trigger]
        value_changed(recorded.request, uri, body, from, to) && text::contains_text(
            recorded.response.body,
            from,
        )
}

/// A swap answers from the closest recording, exactly if the request is the recorded one
/// or a value of the response changed. Nothing of the recording but the body of its
/// response is touched.
pub proof fn law_swap_answers_from_closest(
    mocks: Seq<MockEntryView>,
    method: Seq<char>,
    uri: Seq<char>,
    body: Seq<char>,
    k: int,
)
    requires
        sound_json(body),
        closest_at(mocks, method, uri, k),
    ensures
        ({
            let r = smart_swap(mocks, method, uri, body);
            &&& r is Some <==> traceable(mocks[k], uri, body) || (mocks[k].request.uri == uri
                && mocks[k].request.body == body)
            &&& r is Some ==> {
                &&& r->0.id == mocks[k].id
                &&& r->0.request == mocks[k].request
                &&& r->0.response.status == mocks[k].response.status
                &&& r->0.response.headers == mocks[k].response.headers
                &&& r->0.response.latency_ms == mocks[k].response.latency_ms
                &&& r->0.service_id == mocks[k].service_id
                &&& r->0.tenant == mocks[k].tenant
            }
        }),
{
    lemma_closest(mocks, method, uri, k);
    let rec = mocks[k];
    let changes = uri_changes(rec.request.uri, uri) + body_changes(rec.request.body, body);
    let subs = substitute::traced(changes, rec.response.body);
    if traceable(rec, uri, body) {
        let (from, to) = choose|from: Seq<char>, to: Seq<char>| #[trigger]
            value_changed(rec.request, uri, body, from, to) && text::contains_text(
                rec.response.body,
                from,
            );
        lemma_changes(rec.request, uri, body, from, to);
        substitute::law_traceable_changes_are_substituted(changes, rec.response.body, from, to);
        assert(subs.contains_key(from));
    } else {
        assert forall|x: Seq<char>| !#[trigger] subs.contains_key(x) by {
            if subs.contains_key(x) {
                lemma_swapped_value(rec, uri, body, x);
            }
        }
        assert(subs =~= Map::empty());
    }
}

/// What a value is swapped for is a value that it changed to.
proof fn lemma_swapped_value(rec: MockEntryView, uri: Seq<char>, body: Seq<char>, x: Seq<char>)
    requires
        sound_json(body),
        substitute::traced(
            uri_changes(rec.request.uri, uri) + body_changes(rec.request.body, body),
            rec.response.body,
        ).contains_key(x),
    ensures
        text::contains_text(rec.response.body, x),
        value_changed(
            rec.request,
            uri,
            body,
            x,
            substitute::traced(
                uri_changes(rec.request.uri, uri) + body_changes(rec.request.body, body),
                rec.response.body,
            )[x],
        ),
{
    let changes = uri_changes(rec.request.uri, uri) + body_changes(rec.request.body, body);
    let subs = substitute::traced(changes, rec.response.body);
    substitute::law_substitutions_have_evidence(changes, rec.response.body, x);
    let i = choose|i: int| 0 <= i < changes.len() && #[trigger] changes[i].0 == x;
    assert(changes[i] == (x, changes[i].1));
    assert(changes.contains((x, changes[i].1)));
    substitute::law_traceable_changes_are_substituted(
        changes,
        rec.response.body,
        x,
        changes[i].1,
    );
    lemma_changes(rec.request, uri, body, x, subs[x]);
}

/// A changed value is rewritten: where the recorded JSON response has a string that is
/// the whole of a value that changed, and changed in one way only, the answer has the
/// value of the request at the same place.
pub proof fn law_changed_value_is_swapped(
    mocks: Seq<MockEntryView>,
    method: Seq<char>,
    uri: Seq<char>,
    body: Seq<char>,
    k: int,
    from: Seq<char>,
    to: Seq<char>,
)
    requires
        sound_json(body),
        closest_at(mocks, method, uri, k),
        value_changed(mocks[k].request, uri, body, from, to),
        forall|other: Seq<char>| #[trigger]
            value_changed(mocks[k].request, uri, body, from, other) ==> other == to,
        text::contains_text(mocks[k].response.body, from),
        json::json_in(mocks[k].response.body) is Some,
    ensures
        smart_swap(mocks, method, uri, body) is Some,
        exists|m: JsonModel|
            {
                &&& #[trigger] json::json_text(m) is Some ==> json::json_text(m) == Some(
                    smart_swap(mocks, method, uri, body)->0.response.body,
                )
                &&& forall|place: Seq<substitute::Place>| #[trigger]
                    substitute::string_at(json::json_in(mocks[k].response.body)->0, place, from)
                        ==> substitute::string_at(m, place, to)
            },
{
    let rec = mocks[k];
    lemma_closest(mocks, method, uri, k);
    let changes = uri_changes(rec.request.uri, uri) + body_changes(rec.request.body, body);
    let subs = substitute::traced(changes, rec.response.body);
    lemma_changes(rec.request, uri, body, from, to);
    assert forall|c: (Seq<char>, Seq<char>)| #[trigger] changes.contains(c) && c.0
        == from implies c.1 == to by {
        lemma_changes(rec.request, uri, body, c.0, c.1);
        assert(value_changed(rec.request, uri, body, from, c.1));
    }
    substitute::law_traceable_changes_are_substituted(changes, rec.response.body, from, to);
    assert(subs.contains_key(from));
    let resp = json::json_in(rec.response.body)->0;
    let m = substitute::substituted(resp, subs);
    assert forall|place: Seq<substitute::Place>| #[trigger]
        substitute::string_at(resp, place, from) implies substitute::string_at(m, place, to) by {
        substitute::law_strings_are_replaced_in_place(resp, subs, place, JsonModel::Str(from));
    }
    assert(json::json_text(m) is Some ==> json::json_text(m) == Some(
        smart_swap(mocks, method, uri, body)->0.response.body,
    ));
}

/// A value that changed in the body counts before the path and the query: where `from`
/// became `to` in the body, and nothing else there, the answer has `to`, whatever it
/// became in the path and in the query.
pub proof fn law_body_counts_before_uri(
    mocks: Seq<MockEntryView>,
    method: Seq<char>,
    uri: Seq<char>,
    body: Seq<char>,
    k: int,
    from: Seq<char>,
    to: Seq<char>,
)
    requires
        sound_json(body),
        closest_at(mocks, method, uri, k),
        mocks[k].request.body.len() > 0 && body.len() > 0,
        json::json_in(mocks[k].request.body) is Some && json::json_in(body) is Some,
        from != to,
        exists|place: Seq<substitute::Place>| #[trigger]
            substitute::string_at(json::json_in(mocks[k].request.body)->0, place, from)
                && substitute::string_at(json::json_in(body)->0, place, to),
        forall|place: Seq<substitute::Place>, other: Seq<char>|
            #![trigger substitute::string_at(json::json_in(mocks[k].request.body)->0, place, from), substitute::string_at(json::json_in(body)->0, place, other)]
            substitute::string_at(json::json_in(mocks[k].request.body)->0, place, from)
                && substitute::string_at(json::json_in(body)->0, place, other) ==> other == from
                || other == to,
        text::contains_text(mocks[k].response.body, from),
        json::json_in(mocks[k].response.body) is Some,
    ensures
        smart_swap(mocks, method, uri, body) is Some,
        exists|m: JsonModel|
            {
                &&& #[trigger] json::json_text(m) is Some ==> json::json_text(m) == Some(
                    smart_swap(mocks, method, uri, body)->0.response.body,
                )
                &&& forall|place: Seq<substitute::Place>| #[trigger]
                    substitute::string_at(json::json_in(mocks[k].response.body)->0, place, from)
                        ==> substitute::string_at(m, place, to)
            },
{
    let rec = mocks[k];
    lemma_closest(mocks, method, uri, k);
    let uc = uri_changes(rec.request.uri, uri);
    let bc = body_changes(rec.request.body, body);
    let r = json::json_in(rec.request.body)->0;
    let i = json::json_in(body)->0;
    let place = choose|place: Seq<substitute::Place>| #[trigger]
        substitute::string_at(r, place, from) && substitute::string_at(i, place, to);
    if rec.request.body == body {
        substitute::lemma_one_string_at(i, place, from, to);
    }
    substitute::law_differing_strings_are_found(r, i, place, from, to);
    assert forall|c: (Seq<char>, Seq<char>)| #[trigger] bc.contains(c) && c.0 == from implies c.1
        == to by {
        substitute::law_found_strings_differ(r, i, c.0, c.1);
        let p = choose|p: Seq<substitute::Place>| #[trigger]
            substitute::string_at(r, p, c.0) && substitute::string_at(i, p, c.1);
        assert(substitute::string_at(i, p, c.1));
    }
    substitute::law_traceable_changes_are_substituted(bc, rec.response.body, from, to);
    substitute::lemma_later_changes_count(uc, bc, rec.response.body, from);
    let subs = substitute::traced(uc + bc, rec.response.body);
    assert(subs.contains_key(from));
    let resp = json::json_in(rec.response.body)->0;
    let m = substitute::substituted(resp, subs);
    assert forall|p: Seq<substitute::Place>| #[trigger]
        substitute::string_at(resp, p, from) implies substitute::string_at(m, p, to) by {
        substitute::law_strings_are_replaced_in_place(resp, subs, p, JsonModel::Str(from));
    }
    assert(json::json_text(m) is Some ==> json::json_text(m) == Some(
        smart_swap(mocks, method, uri, body)->0.response.body,
    ));
}

/// A value that changed in the query counts before the path: where `from` became `to` in
/// the query, and nothing else there, a request with the recorded body is answered with
/// `to`, whatever it became in the path.
pub proof fn law_query_counts_before_path(
    mocks: Seq<MockEntryView>,
    method: Seq<char>,
    uri: Seq<char>,
    k: int,
    key: Seq<char>,
    from: Seq<char>,
    to: Seq<char>,
)
    requires
        closest_at(mocks, method, uri, k),
        uri::query_map(uri::query_of(mocks[k].request.uri)).contains_key(key),
        uri::query_map(uri::query_of(uri)).contains_key(key),
        uri::query_map(uri::query_of(mocks[k].request.uri))[key] == from,
        uri::query_map(uri::query_of(uri))[key] == to,
        from != to,
        forall|other: Seq<char>|
            uri::query_map(uri::query_of(mocks[k].request.uri)).contains_key(other)
                && #[trigger] uri::query_map(uri::query_of(uri)).contains_key(other)
                && uri::query_map(uri::query_of(mocks[k].request.uri))[other] == from
                ==> uri::query_map(uri::query_of(uri))[other] == from || uri::query_map(
                uri::query_of(uri),
            )[other] == to,
        text::contains_text(mocks[k].response.body, from),
        json::json_in(mocks[k].response.body) is Some,
    ensures
        ({
            let body = mocks[k].request.body;
            &&& smart_swap(mocks, method, uri, body) is Some
            &&& exists|m: JsonModel|
                {
                    &&& #[trigger] json::json_text(m) is Some ==> json::json_text(m) == Some(
                        smart_swap(mocks, method, uri, body)->0.response.body,
                    )
                    &&& forall|place: Seq<substitute::Place>| #[trigger]
                        substitute::string_at(
                            json::json_in(mocks[k].response.body)->0,
                            place,
                            from,
                        ) ==> substitute::string_at(m, place, to)
                }
        }),
{
    let rec = mocks[k];
    let body = rec.request.body;
    lemma_closest(mocks, method, uri, k);
    let rs = uri::segments(rec.request.uri);
    let rq = uri::query_map(uri::query_of(rec.request.uri));
    let iq = uri::query_map(uri::query_of(uri));
    let ps = ordmap::sorted_pairs::<String, Seq<char>>(rq);
    let sc = segment_changes(rs, uri::segments(uri), rs.len());
    let pc = param_changes(ps, iq, ps.len());
    lemma_query_map_is_pairs(uri::query_of(rec.request.uri));
    ordmap::lemma_pairs_map::<String, Seq<char>>(ps);
    lemma_param_changes(ps, iq, ps.len());
    assert(ordmap::has_key(ps, key));
    let i = ordmap::key_index(ps, key);
    assert(ps[i].0 == key && ps[i].1 == from);
    assert(pc.contains((from, to)));
    assert forall|c: (Seq<char>, Seq<char>)| #[trigger] pc.contains(c) && c.0 == from implies c.1
        == to by {
        let j = choose|j: int|
            0 <= j < ps.len() && (#[trigger] ps[j]).1 == c.0 && iq.contains_key(ps[j].0)
                && iq[ps[j].0] == c.1;
        assert(rq.contains_key(ps[j].0) && rq[ps[j].0] == ps[j].1);
    }
    substitute::law_traceable_changes_are_substituted(pc, rec.response.body, from, to);
    substitute::lemma_later_changes_count(sc, pc, rec.response.body, from);
    let all = uri_changes(rec.request.uri, uri) + body_changes(body, body);
    assert(all =~= sc + pc);
    let subs = substitute::traced(all, rec.response.body);
    assert(subs.contains_key(from));
    let resp = json::json_in(rec.response.body)->0;
    let m = substitute::substituted(resp, subs);
    assert forall|p: Seq<substitute::Place>| #[trigger]
        substitute::string_at(resp, p, from) implies substitute::string_at(m, p, to) by {
        substitute::law_strings_are_replaced_in_place(resp, subs, p, JsonModel::Str(from));
    }
    assert(json::json_text(m) is Some ==> json::json_text(m) == Some(
        smart_swap(mocks, method, uri, body)->0.response.body,
    ));
}

/// What did not change stays: a string of the recorded JSON response that is not the
/// whole of a changed value, and everything that is no string, stands in the answer at
/// the same place.
pub proof fn law_unchanged_value_stays(
    mocks: Seq<MockEntryView>,
    method: Seq<char>,
    uri: Seq<char>,
    body: Seq<char>,
    k: int,
)
    requires
        sound_json(body),
        closest_at(mocks, method, uri, k),
        smart_swap(mocks, method, uri, body) is Some,
        traceable(mocks[k], uri, body),
        json::json_in(mocks[k].response.body) is Some,
    ensures
        exists|m: JsonModel|
            {
                &&& #[trigger] json::json_text(m) is Some ==> json::json_text(m) == Some(
                    smart_swap(mocks, method, uri, body)->0.response.body,
                )
                &&& forall|place: Seq<substitute::Place>, v: JsonModel| #[trigger]
                    substitute::value_at(json::json_in(mocks[k].response.body)->0, place, v) && !(v
                        is Array) && !(v is Object) && (v is Str ==> forall|to: Seq<char>|
                        !#[trigger] value_changed(mocks[k].request, uri, body, v->Str_0, to))
                        ==> substitute::value_at(m, place, v)
            },
{
    let rec = mocks[k];
    lemma_closest(mocks, method, uri, k);
    let changes = uri_changes(rec.request.uri, uri) + body_changes(rec.request.body, body);
    let subs = substitute::traced(changes, rec.response.body);
    let (from, to) = choose|from: Seq<char>, to: Seq<char>| #[trigger]
        value_changed(rec.request, uri, body, from, to) && text::contains_text(
            rec.response.body,
            from,
        );
    lemma_changes(rec.request, uri, body, from, to);
    substitute::law_traceable_changes_are_substituted(changes, rec.response.body, from, to);
    assert(subs.contains_key(from));
    let resp = json::json_in(rec.response.body)->0;
    let m = substitute::substituted(resp, subs);
    assert forall|place: Seq<substitute::Place>, v: JsonModel| #[trigger]
        substitute::value_at(resp, place, v) && !(v is Array) && !(v is Object) && (v is Str
            ==> forall|to: Seq<char>|
            !#[trigger] value_changed(
                rec.request,
                uri,
                body,
                v->Str_0,
                to,
            )) implies substitute::value_at(m, place, v) by {
        if v is Str && subs.contains_key(v->Str_0) {
            lemma_swapped_value(rec, uri, body, v->Str_0);
        }
        substitute::law_strings_are_replaced_in_place(resp, subs, place, v);
    }
    assert(json::json_text(m) is Some ==> json::json_text(m) == Some(
        smart_swap(mocks, method, uri, body)->0.response.body,
    ));
}

/// In a response that is not JSON a changed value is rewritten where it stands as a word:
/// if no other value of the response changed and it stands there once, between ASCII
/// characters that are no part of a word or at an end, the answer has the value of the
/// request in its place.
pub proof fn law_changed_word_is_swapped(
    mocks: Seq<MockEntryView>,
    method: Seq<char>,
    uri: Seq<char>,
    body: Seq<char>,
    k: int,
    from: Seq<char>,
    to: Seq<char>,
    before: Seq<char>,
    after: Seq<char>,
)
    requires
        sound_json(body),
        closest_at(mocks, method, uri, k),
        value_changed(mocks[k].request, uri, body, from, to),
        forall|x: Seq<char>, y: Seq<char>| #[trigger]
            value_changed(mocks[k].request, uri, body, x, y) && text::contains_text(
                mocks[k].response.body,
                x,
            ) ==> x == from && y == to,
        json::json_in(mocks[k].response.body) is None,
        mocks[k].response.body == before + from + after,
        from.len() > 0,
        before.len() > 0 ==> before.last() <= '\u{7f}' && !substitute::plain_word_char(
            before.last(),
        ),
        after.len() > 0 ==> after[0] <= '\u{7f}' && !substitute::plain_word_char(after[0]),
        forall|i: int| #[trigger]
            text::occurs_at(mocks[k].response.body, from, i) ==> i == before.len(),
    ensures
        smart_swap(mocks, method, uri, body) is Some,
        smart_swap(mocks, method, uri, body)->0.response.body == before + to + after,
{
    let rec = mocks[k];
    lemma_closest(mocks, method, uri, k);
    let changes = uri_changes(rec.request.uri, uri) + body_changes(rec.request.body, body);
    let subs = substitute::traced(changes, rec.response.body);
    let n = before.len() as int;
    assert(rec.response.body.subrange(n, n + from.len()) =~= from);
    assert(text::occurs_at(rec.response.body, from, n));
    lemma_changes(rec.request, uri, body, from, to);
    substitute::law_traceable_changes_are_substituted(changes, rec.response.body, from, to);
    lemma_swapped_value(rec, uri, body, from);
    assert forall|x: Seq<char>| #[trigger] subs.contains_key(x) implies x == from by {
        lemma_swapped_value(rec, uri, body, x);
    }
    assert(subs =~= Map::<Seq<char>, Seq<char>>::empty().insert(from, to));
    assert(subs.contains_key(from));
    substitute::lemma_one_substitution(rec.response.body, from, to);
    substitute::law_word_is_replaced(before, from, after, to);
}

// ─── Sequences ───────────────────────────────────────────────────────────────

/// The first sequence for this method whose URI is this one or has its shape.
pub open spec fn sequence_for(
    seqs: Seq<MockSequenceView>,
    method: Seq<char>,
    uri: Seq<char>,
) -> Option<MockSequenceView>
    decreases seqs.len(),
{
    if seqs.len() == 0 {
        None
    } else if seqs[0].method == method && uri::same_shape(seqs[0].uri, uri) {
        Some(seqs[0])
    } else {
        sequence_for(seqs.drop_first(), method, uri)
    }
}

/// How often the sequence `id` was served, as far as it is counted.
pub open spec fn counter_of(counters: Map<Seq<char>, u32>, id: Seq<char>) -> u32 {
    if counters.contains_key(id) {
        counters[id]
    } else {
        0
    }
}

/// Which of `len` responses stands at the counter: the last one once the counter
/// is past the end.
pub open spec fn response_index(counter: u32, len: nat) -> int {
    if counter < len {
        counter as int
    } else {
        len - 1
    }
}

/// The counter after a response is served. A looping sequence starts over after
/// its last response; the counter wraps at 32 bits.
pub open spec fn next_counter(counter: u32, len: nat, looping: bool) -> u32 {
    let next: nat = (counter as nat) + 1;
    let n: nat = if looping {
        next % len
    } else {
        next
    };
    (n % 0x1_0000_0000) as u32
}

fn advance(counter: u32, len: usize, looping: bool) -> (r: u32)
    requires
        len > 0,
    ensures
        r == next_counter(counter, len as nat, looping),
{
    let next: u64 = counter as u64 + 1;
    let n: u64 = if looping {
        next % (len as u64)
    } else {
        next
    };
    (n % 0x1_0000_0000) as u32
}

fn first_sequence<'a>(seqs: &'a [MockSequence], method: &str, uri: &str) -> (r: Option<
    &'a MockSequence,
>)
    ensures
        match r {
            Some(s) => sequence_for(seqs.deep_view(), method@, uri@) == Some(s.deep_view()),
            None => sequence_for(seqs.deep_view(), method@, uri@) is None,
        },
{
    let ghost all = seqs.deep_view();
    let mut i: usize = 0;
    assert(all.skip(0) =~= all);
    while i < seqs.len()
        invariant
            i <= seqs@.len(),
            all == seqs.deep_view(),
            sequence_for(all, method@, uri@) == sequence_for(all.skip(i as int), method@, uri@),
        decreases seqs@.len() - i,
    {
        let s = &seqs[i];
        proof {
            let t = all.skip(i as int);
            assert(t[0] == s.deep_view());
            assert(t.drop_first() =~= all.skip(i + 1));
        }
        if same_text(s.method.as_str(), method) && paths_match(s.uri.as_str(), uri) {
            return Some(s);
        }
        i += 1;
    }
    None
}

/// The next response of the first sequence for this method and URI. The counter of
/// the sequence advances; a sequence without responses answers nothing.
pub fn find_sequence_response(
    seqs: &[MockSequence],
    counters: &mut OrdMap<String, u32>,
    method: &str,
    uri: &str,
) -> (r: Option<SequenceResponse>)
    ensures
        match sequence_for(seqs.deep_view(), method@, uri@) {
            Some(seq) => {
                if seq.responses.len() == 0 {
                    r is None && final(counters)@ == old(counters)@
                } else {
                    let counter = counter_of(old(counters)@, seq.id);
                    &&& r.deep_view() == Some(
                        seq.responses[response_index(counter, seq.responses.len())],
                    )
                    &&& final(counters)@ == old(counters)@.insert(
                        seq.id,
                        next_counter(counter, seq.responses.len(), seq.loop_responses),
                    )
                }
            },
            None => r is None && final(counters)@ == old(counters)@,
        },
{
    let seq = match first_sequence(seqs, method, uri) {
        Some(s) => s,
        None => {
            return None;
        },
    };
    let len = seq.responses.len();
    if len == 0 {
        return None;
    }
    let current: u32 = match counters.get(&seq.id) {
        Some(c) => *c,
        None => 0,
    };
    let idx: usize = if (current as u64) < (len as u64) {
        current as usize
    } else {
        len - 1
    };
    let resp = seq.responses[idx].dup();
    let next = advance(current, len, seq.loop_responses);
    counters.insert(seq.id.clone(), next);
    assert(resp.deep_view() == seq.deep_view().responses[idx as int]);
    Some(resp)
}

/// The counter of a sequence after it was served `n` times.
pub open spec fn counter_after(n: nat, len: nat, looping: bool) -> u32
    decreases n,
{
    if n == 0 {
        0
    } else {
        next_counter(counter_after((n - 1) as nat, len, looping), len, looping)
    }
}

/// A sequence serves its responses in order. Past the end it serves the last one,
/// or, looping, starts over: the request after `n` others is served response
/// `min(n, len - 1)`, or `n % len`. Where the counter would pass 32 bits, it holds up
/// to there.
pub proof fn law_sequence_order(n: nat, len: nat, looping: bool)
    requires
        len > 0,
        n < 0x1_0000_0000 || looping && len <= 0x1_0000_0000,
    ensures
        response_index(counter_after(n, len, looping), len) == if looping {
            (n % len) as int
        } else if n < len {
            n as int
        } else {
            len - 1
        },
        counter_after(n, len, looping) == if looping {
            n % len
        } else {
            n
        },
    decreases n,
{
    if n == 0 {
        vstd::arithmetic::div_mod::lemma_small_mod(0, len);
    } else {
        law_sequence_order((n - 1) as nat, len, looping);
        let c = counter_after((n - 1) as nat, len, looping);
        if looping {
            vstd::arithmetic::div_mod::lemma_add_mod_noop((n - 1) as int, 1, len as int);
            vstd::arithmetic::div_mod::lemma_add_mod_noop(c as int, 1, len as int);
            vstd::arithmetic::div_mod::lemma_mod_bound(n as int, len as int);
            vstd::arithmetic::div_mod::lemma_mod_twice((n - 1) as int, len as int);
            assert(((c as nat) + 1) % len == n % len);
            vstd::arithmetic::div_mod::lemma_mod_decreases(n, len);
        }
    }
    if looping {
        vstd::arithmetic::div_mod::lemma_mod_bound(n as int, len as int);
    }
}

/// Serving one sequence does not move the counter of another.
pub proof fn law_counters_are_independent(
    counters: Map<Seq<char>, u32>,
    id: Seq<char>,
    next: u32,
    other: Seq<char>,
)
    requires
        other != id,
    ensures
        counter_of(counters.insert(id, next), other) == counter_of(counters, other),
{
}

} // verus!
