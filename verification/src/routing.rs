//! Which service, upstream, mode and tenant a request belongs to.
use crate::chaos::ChaosConfig;
use crate::chaos::ChaosConfigView;
use crate::chaos::ChaosModel;
use crate::dup::Dup;
use crate::text;
use crate::text::has_prefix;
use crate::text::join_text;
use crate::text::same_text;
use crate::text::slice_text;
use crate::text::split_once;
use crate::text::split_text;
use crate::types::Mode;
use crate::types::GLOBAL_TENANT;
use crate::uri;
use crate::uri::normalize_uri;
use vstd::prelude::*;
use vstd::string::StringExecFns;

verus! {

// ─── Upstream routes ─────────────────────────────────────────────────────────

/// Sends the requests of a host or below a path prefix to a service.
pub struct UpstreamRoute {
    /// `host` or `path`.
    pub routing_type: String,
    /// The host, or the path prefix.
    pub routing_value: String,
    pub upstream_url: String,
    pub service_id: String,
    /// The mode of the service; without one the global mode counts.
    pub mode: Option<Mode>,
    pub chaos_config: Option<ChaosConfig>,
    /// Headers that are redacted for this service besides those redacted for all.
    pub redact_headers: Vec<String>,
}

#[verifier::ext_equal]
pub struct UpstreamRouteView {
    pub routing_type: Seq<char>,
    pub routing_value: Seq<char>,
    pub upstream_url: Seq<char>,
    pub service_id: Seq<char>,
    pub mode: Option<Mode>,
    pub chaos_config: Option<ChaosConfigView>,
    pub redact_headers: Seq<Seq<char>>,
}

impl DeepView for UpstreamRoute {
    type V = UpstreamRouteView;

    open spec fn deep_view(&self) -> UpstreamRouteView {
        UpstreamRouteView {
            routing_type: self.routing_type@,
            routing_value: self.routing_value@,
            upstream_url: self.upstream_url@,
            service_id: self.service_id@,
            mode: self.mode.deep_view(),
            chaos_config: self.chaos_config.deep_view(),
            redact_headers: self.redact_headers.deep_view(),
        }
    }
}

/// The route is for this host, with or without its port, or for this path.
pub open spec fn route_matches(
    route: UpstreamRouteView,
    host: Seq<char>,
    path: Seq<char>,
) -> bool {
    if route.routing_type == "host"@ {
        text::before_char(host, ':') == route.routing_value || host == route.routing_value
    } else if route.routing_type == "path"@ {
        text::starts_with(path, route.routing_value)
    } else {
        false
    }
}

/// The first route for this host and path.
pub open spec fn first_route(
    routes: Seq<UpstreamRouteView>,
    host: Seq<char>,
    path: Seq<char>,
) -> Option<UpstreamRouteView>
    decreases routes.len(),
{
    if routes.len() == 0 {
        None
    } else if route_matches(routes[0], host, path) {
        Some(routes[0])
    } else {
        first_route(routes.drop_first(), host, path)
    }
}

/// Where a request goes: the upstream, and what its service sets.
#[verifier::ext_equal]
pub struct Destination {
    pub upstream: Seq<char>,
    pub service_id: Option<Seq<char>>,
    pub mode: Option<Mode>,
    pub chaos: Option<ChaosConfigView>,
    pub redact_headers: Seq<Seq<char>>,
}

/// Where a request to this host and path goes: to the upstream of the first route for
/// it, or to the default upstream without a service.
pub open spec fn destination(
    routes: Seq<UpstreamRouteView>,
    host: Seq<char>,
    path: Seq<char>,
    default_url: Seq<char>,
) -> Destination {
    match first_route(routes, host, path) {
        Some(route) => Destination {
            upstream: route.upstream_url,
            service_id: Some(route.service_id),
            mode: route.mode,
            chaos: route.chaos_config,
            redact_headers: route.redact_headers,
        },
        None => Destination {
            upstream: default_url,
            service_id: None,
            mode: None,
            chaos: None,
            redact_headers: Seq::empty(),
        },
    }
}

fn is_match(route: &UpstreamRoute, host: &str, path: &str) -> (r: bool)
    ensures
        r == route_matches(route.deep_view(), host@, path@),
{
    if same_text(route.routing_type.as_str(), "host") {
        let (bare, _) = split_once(host, ':');
        same_text(bare.as_str(), route.routing_value.as_str()) || same_text(
            host,
            route.routing_value.as_str(),
        )
    } else if same_text(route.routing_type.as_str(), "path") {
        has_prefix(path, route.routing_value.as_str())
    } else {
        false
    }
}

/// The upstream URL, the service, its mode, its chaos configuration and the headers
/// that it redacts, by the first route for this host and path.
pub fn resolve_upstream(
    upstreams: &[UpstreamRoute],
    host: &str,
    path: &str,
    default_url: &str,
) -> (r: (String, Option<String>, Option<Mode>, Option<ChaosConfig>, Vec<String>))
    ensures
        ({
            let d = destination(upstreams.deep_view(), host@, path@, default_url@);
            &&& r.0@ == d.upstream
            &&& r.1.deep_view() == d.service_id
            &&& r.2.deep_view() == d.mode
            &&& r.3.deep_view() == d.chaos
            &&& r.4.deep_view() == d.redact_headers
        }),
{
    let ghost all = upstreams.deep_view();
    let mut i: usize = 0;
    assert(all.skip(0) =~= all);
    while i < upstreams.len()
        invariant
            i <= upstreams@.len(),
            all == upstreams.deep_view(),
            first_route(all, host@, path@) == first_route(all.skip(i as int), host@, path@),
        decreases upstreams@.len() - i,
    {
        let up = &upstreams[i];
        proof {
            let t = all.skip(i as int);
            assert(t[0] == up.deep_view());
            assert(t.drop_first() =~= all.skip(i + 1));
        }
        if is_match(up, host, path) {
            return (
                up.upstream_url.clone(),
                Some(up.service_id.clone()),
                up.mode.dup(),
                up.chaos_config.dup(),
                up.redact_headers.dup(),
            );
        }
        i += 1;
    }
    let none: Vec<String> = Vec::new();
    assert(none.deep_view() =~= Seq::empty());
    (default_url.to_owned(), None, None, None, none)
}

/// The first route for a request decides: a route before which no route matches, and
/// which matches, is the one.
pub proof fn law_first_route_wins(
    routes: Seq<UpstreamRouteView>,
    host: Seq<char>,
    path: Seq<char>,
    k: int,
)
    requires
        0 <= k < routes.len(),
        route_matches(routes[k], host, path),
        forall|i: int| 0 <= i < k ==> !route_matches(#[trigger] routes[i], host, path),
    ensures
        first_route(routes, host, path) == Some(routes[k]),
    decreases routes.len(),
{
    if k > 0 {
        assert(!route_matches(routes[0], host, path));
        let rest = routes.drop_first();
        assert(rest[k - 1] == routes[k]);
        assert forall|i: int| 0 <= i < k - 1 implies !route_matches(
            #[trigger] rest[i],
            host,
            path,
        ) by {
            assert(rest[i] == routes[i + 1]);
        }
        law_first_route_wins(rest, host, path, k - 1);
    }
}

/// Without a route for it a request has no service and goes to the default upstream.
pub proof fn law_unrouted_goes_to_default(
    routes: Seq<UpstreamRouteView>,
    host: Seq<char>,
    path: Seq<char>,
    default_url: Seq<char>,
)
    requires
        forall|i: int| 0 <= i < routes.len() ==> !route_matches(#[trigger] routes[i], host, path),
    ensures
        destination(routes, host, path, default_url).upstream == default_url,
        destination(routes, host, path, default_url).service_id is None,
    decreases routes.len(),
{
    if routes.len() > 0 {
        assert(!route_matches(routes[0], host, path));
        let rest = routes.drop_first();
        assert forall|i: int| 0 <= i < rest.len() implies !route_matches(
            #[trigger] rest[i],
            host,
            path,
        ) by {
            assert(rest[i] == routes[i + 1]);
        }
        law_unrouted_goes_to_default(rest, host, path, default_url);
    }
}

/// The number of routes whose service has the Markov chaos model.
pub open spec fn markov_routes(routes: Seq<UpstreamRouteView>) -> nat {
    routes.filter(
        |r: UpstreamRouteView|
            r.chaos_config is Some && r.chaos_config->0.chaos_model == ChaosModel::Markov,
    ).len()
}

/// The number of routes whose service has the Markov chaos model.
pub fn count_markov_routes(routes: &[UpstreamRoute]) -> (r: usize)
    ensures
        r == markov_routes(routes.deep_view()),
{
    let ghost all = routes.deep_view();
    let ghost p = |r: UpstreamRouteView|
        r.chaos_config is Some && r.chaos_config->0.chaos_model == ChaosModel::Markov;
    let mut n: usize = 0;
    let mut i: usize = 0;
    proof {
        reveal(Seq::filter);
        assert(all.take(0).filter(p).len() == 0);
    }
    while i < routes.len()
        invariant
            i <= routes@.len(),
            n <= i,
            all == routes.deep_view(),
            p == (|r: UpstreamRouteView|
                r.chaos_config is Some && r.chaos_config->0.chaos_model == ChaosModel::Markov),
            n == all.take(i as int).filter(p).len(),
        decreases routes@.len() - i,
    {
        proof {
            reveal(Seq::filter);
            assert(all.take(i + 1).drop_last() =~= all.take(i as int));
            assert(all.take(i + 1).last() == routes@[i as int].deep_view());
        }
        if let Some(cc) = &routes[i].chaos_config {
            if cc.chaos_model == ChaosModel::Markov {
                n += 1;
            }
        }
        i += 1;
    }
    assert(all.take(all.len() as int) =~= all);
    n
}

// ─── Tenants ─────────────────────────────────────────────────────────────────

/// The longest tenant id, in characters.
pub const MAX_TENANT_CHARS: usize = 128;

/// The query parameter that can name the tenant.
pub const TENANT_PARAM: &'static str = "_tenant";

/// The header that can name the tenant, in lower case.
pub const TENANT_HEADER: &'static str = "x-gostly-tenant";

/// The value of the first of the parameters that names the tenant.
pub open spec fn tenant_in(parts: Seq<Seq<char>>) -> Option<Seq<char>>
    decreases parts.len(),
{
    if parts.len() == 0 {
        None
    } else if uri::param_of(parts[0]).0 == TENANT_PARAM@ {
        Some(uri::param_of(parts[0]).1)
    } else {
        tenant_in(parts.drop_first())
    }
}

/// The parameters that do not name the tenant.
pub open spec fn other_params(parts: Seq<Seq<char>>) -> Seq<Seq<char>>
    decreases parts.len(),
{
    if parts.len() == 0 {
        Seq::empty()
    } else if uri::param_of(parts.last()).0 == TENANT_PARAM@ {
        other_params(parts.drop_last())
    } else {
        other_params(parts.drop_last()).push(parts.last())
    }
}

/// The tenant that the query of a URI names.
pub open spec fn uri_tenant(u: Seq<char>) -> Option<Seq<char>> {
    tenant_in(text::split(uri::query_of(u), '&'))
}

/// The URI without the parameters that name the tenant.
pub open spec fn without_tenant(u: Seq<char>) -> Seq<char> {
    if uri_tenant(u) is None {
        u
    } else {
        let kept = other_params(text::split(uri::query_of(u), '&'));
        if kept.len() == 0 {
            uri::path_of(u)
        } else {
            uri::path_of(u) + seq!['?'] + text::join(kept, seq!['&'])
        }
    }
}

/// An id that names a tenant.
pub open spec fn named(id: Option<Seq<char>>) -> bool {
    id is Some && id->0.len() > 0
}

/// The tenant id that a request gives: by the header, else by the URI, else the global
/// tenant.
pub open spec fn given_tenant(header: Option<Seq<char>>, u: Seq<char>) -> Seq<char> {
    if named(header) {
        header->0
    } else if named(uri_tenant(u)) {
        uri_tenant(u)->0
    } else {
        GLOBAL_TENANT@
    }
}

/// The tenant of a request: the id that it gives, cut to the longest.
pub open spec fn tenant_of(header: Option<Seq<char>>, u: Seq<char>) -> Seq<char> {
    let id = given_tenant(header, u);
    if id.len() > MAX_TENANT_CHARS {
        id.take(MAX_TENANT_CHARS as int)
    } else {
        id
    }
}

/// The tenant of a request.
pub struct TenantChoice {
    pub tenant: String,
    /// Whether the given id was cut.
    pub truncated: bool,
    /// The URI without the parameters that name the tenant.
    pub uri: String,
}

fn split_tenant(parts: &Vec<String>) -> (r: (Option<String>, Vec<String>))
    ensures
        r.0.deep_view() == tenant_in(parts.deep_view()),
        r.1.deep_view() == other_params(parts.deep_view()),
{
    let ghost all = parts.deep_view();
    let mut found: Option<String> = None;
    let mut kept: Vec<String> = Vec::new();
    let mut i: usize = 0;
    assert(kept.deep_view() =~= Seq::empty());
    assert(all.skip(0) =~= all);
    assert(all.take(0) =~= Seq::empty());
    while i < parts.len()
        invariant
            i <= parts@.len(),
            all == parts.deep_view(),
            tenant_in(all) == (match found.deep_view() {
                Some(v) => Some(v),
                None => tenant_in(all.skip(i as int)),
            }),
            kept.deep_view() == other_params(all.take(i as int)),
        decreases parts@.len() - i,
    {
        let ghost before = kept.deep_view();
        proof {
            assert(all[i as int] == parts@[i as int]@);
            assert(all.skip(i as int)[0] == all[i as int]);
            assert(all.skip(i as int).drop_first() =~= all.skip(i + 1));
            assert(all.take(i + 1).drop_last() =~= all.take(i as int));
            assert(all.take(i + 1).last() == all[i as int]);
        }
        let (key, value) = split_once(parts[i].as_str(), '=');
        if same_text(key.as_str(), TENANT_PARAM) {
            if found.is_none() {
                found = Some(
                    match value {
                        Some(v) => v,
                        None => String::new(),
                    },
                );
            }
        } else {
            kept.push(parts[i].clone());
            assert(kept.deep_view() =~= before.push(all[i as int]));
        }
        i += 1;
    }
    assert(all.take(all.len() as int) =~= all);
    assert(all.skip(all.len() as int).len() == 0);
    (found, kept)
}

/// The tenant of a request with this tenant header and this URI, and the URI without
/// the parameters that name the tenant.
pub fn resolve_tenant(header: Option<&str>, request_uri: &str) -> (r: TenantChoice)
    ensures
        r.tenant@ == tenant_of(header.deep_view(), request_uri@),
        r.truncated == (given_tenant(header.deep_view(), request_uri@).len() > MAX_TENANT_CHARS),
        r.uri@ == without_tenant(request_uri@),
{
    let (path, query) = split_once(request_uri, '?');
    let query = match query {
        Some(q) => q,
        None => String::new(),
    };
    let parts = split_text(query.as_str(), '&');
    let (found, kept) = split_tenant(&parts);
    let stripped = if found.is_none() {
        request_uri.to_owned()
    } else if kept.len() == 0 {
        path
    } else {
        let mut s = path;
        let ghost p = s@;
        s.push('?');
        proof {
            reveal_strlit("&");
            assert("&"@ =~= seq!['&']);
        }
        s.append(join_text(&kept, "&").as_str());
        assert(s@ =~= p + seq!['?'] + text::join(kept.deep_view(), seq!['&']));
        s
    };
    let mut id = GLOBAL_TENANT.to_owned();
    let mut by_header: bool = false;
    if let Some(h) = header {
        if !h.is_empty() {
            id = h.to_owned();
            by_header = true;
        }
    }
    if !by_header {
        if let Some(q) = found {
            if !q.as_str().is_empty() {
                id = q;
            }
        }
    }
    let n = id.as_str().unicode_len();
    if n > MAX_TENANT_CHARS {
        let cut = slice_text(id.as_str(), 0, MAX_TENANT_CHARS);
        assert(cut@ =~= id@.take(MAX_TENANT_CHARS as int));
        TenantChoice { tenant: cut, truncated: true, uri: stripped }
    } else {
        TenantChoice { tenant: id, truncated: false, uri: stripped }
    }
}

/// The tenant header counts before the query.
pub proof fn law_tenant_header_wins(header: Seq<char>, u1: Seq<char>, u2: Seq<char>)
    requires
        header.len() > 0,
    ensures
        tenant_of(Some(header), u1) == tenant_of(Some(header), u2),
{
}

/// A request that names no tenant belongs to the global one.
pub proof fn law_untagged_is_global(u: Seq<char>)
    requires
        uri_tenant(u) is None,
    ensures
        tenant_of(None, u) == GLOBAL_TENANT@,
{
    reveal_strlit("_global");
    assert(GLOBAL_TENANT@.len() == 7);
}

/// A tenant id is never empty and never longer than the longest.
pub proof fn law_tenant_is_bounded(header: Option<Seq<char>>, u: Seq<char>)
    ensures
        0 < tenant_of(header, u).len() <= MAX_TENANT_CHARS,
{
    reveal_strlit("_global");
    assert(GLOBAL_TENANT@.len() == 7);
}

proof fn lemma_other_params(parts: Seq<Seq<char>>)
    requires
        forall|i: int| 0 <= i < parts.len() ==> text::lacks_char(#[trigger] parts[i], '&'),
    ensures
        forall|i: int|
            0 <= i < other_params(parts).len() ==> text::lacks_char(
                #[trigger] other_params(parts)[i],
                '&',
            ) && uri::param_of(other_params(parts)[i]).0 != TENANT_PARAM@,
    decreases parts.len(),
{
    if parts.len() > 0 {
        let init = parts.drop_last();
        assert forall|i: int| 0 <= i < init.len() implies text::lacks_char(
            #[trigger] init[i],
            '&',
        ) by {
            assert(init[i] == parts[i]);
        }
        lemma_other_params(init);
        assert forall|i: int| 0 <= i < other_params(parts).len() implies text::lacks_char(
            #[trigger] other_params(parts)[i],
            '&',
        ) && uri::param_of(other_params(parts)[i]).0 != TENANT_PARAM@ by {
            if i < other_params(init).len() {
                assert(other_params(parts)[i] == other_params(init)[i]);
            } else {
                assert(other_params(parts)[i] == parts.last());
                assert(text::lacks_char(parts[parts.len() - 1], '&'));
            }
        }
    }
}

proof fn lemma_no_tenant_in(parts: Seq<Seq<char>>)
    requires
        forall|i: int|
            0 <= i < parts.len() ==> uri::param_of(#[trigger] parts[i]).0 != TENANT_PARAM@,
    ensures
        tenant_in(parts) is None,
    decreases parts.len(),
{
    if parts.len() > 0 {
        let rest = parts.drop_first();
        assert(uri::param_of(parts[0]).0 != TENANT_PARAM@);
        assert forall|i: int| 0 <= i < rest.len() implies uri::param_of(#[trigger] rest[i]).0
            != TENANT_PARAM@ by {
            assert(rest[i] == parts[i + 1]);
        }
        lemma_no_tenant_in(rest);
    }
}

/// The URI that mocks are recorded and looked up under never names a tenant, has the
/// path of the request, and is that of the request if the request names no tenant in
/// its query.
pub proof fn law_tenant_is_stripped(u: Seq<char>)
    ensures
        uri_tenant(without_tenant(u)) is None,
        uri::path_of(without_tenant(u)) == uri::path_of(u),
        uri_tenant(u) is None ==> without_tenant(u) == u,
{
    let parts = text::split(uri::query_of(u), '&');
    let path = uri::path_of(u);
    if uri_tenant(u) is Some {
        text::lemma_split_parts_lack(uri::query_of(u), '&');
        lemma_other_params(parts);
        text::lemma_find_char(u, '?');
        assert(text::lacks_char(path, '?'));
        let kept = other_params(parts);
        if kept.len() == 0 {
            text::lemma_find_char_lacking(path, '?');
            assert(uri::path_of(path) =~= path);
            assert(uri::query_of(path) =~= Seq::empty());
            let none = text::split(Seq::<char>::empty(), '&');
            reveal_strlit("_tenant");
            assert(TENANT_PARAM@.len() == 7);
            assert forall|i: int| 0 <= i < none.len() implies uri::param_of(#[trigger] none[i]).0
                != TENANT_PARAM@ by {
                assert(none[i].len() == 0);
            }
            lemma_no_tenant_in(none);
        } else {
            let q = text::join(kept, seq!['&']);
            text::lemma_find_char_after(path, '?', q);
            text::lemma_split_join(kept, '&');
            lemma_no_tenant_in(kept);
        }
    }
}

proof fn lemma_tenant_in_none(parts: Seq<Seq<char>>)
    requires
        tenant_in(parts) is None,
    ensures
        forall|i: int|
            0 <= i < parts.len() ==> uri::param_of(#[trigger] parts[i]).0 != TENANT_PARAM@,
    decreases parts.len(),
{
    if parts.len() > 0 {
        let rest = parts.drop_first();
        lemma_tenant_in_none(rest);
        assert forall|i: int| 0 <= i < parts.len() implies uri::param_of(#[trigger] parts[i]).0
            != TENANT_PARAM@ by {
            if i > 0 {
                assert(parts[i] == rest[i - 1]);
            }
        }
    }
}

/// The URI that a request is recorded and looked up under never names a tenant.
pub proof fn law_request_uri_has_no_tenant(path_query: Seq<char>)
    ensures
        uri_tenant(request_uri(path_query)) is None,
{
    let u = without_tenant(path_query);
    law_tenant_is_stripped(path_query);
    if text::find_char(u, '?') < u.len() {
        let parts = text::split(uri::query_of(u), '&');
        let ps = uri::params_of(uri::query_of(u));
        let sorted = uri::sort_params(ps);
        let canonical = text::split(uri::query_of(uri::normalized(u)), '&');
        lemma_tenant_in_none(parts);
        uri::law_normalized_params(u);
        uri::law_sort_params(ps);
        assert forall|i: int| 0 <= i < canonical.len() implies uri::param_of(
            #[trigger] canonical[i],
        ).0 != TENANT_PARAM@ by {
            assert(uri::params_of(uri::query_of(uri::normalized(u)))[i] == uri::param_of(
                canonical[i],
            ));
            assert(ps.contains(sorted[i]));
            let j = ps.index_of(sorted[i]);
            assert(ps[j] == uri::param_of(parts[j]));
        }
        lemma_no_tenant_in(canonical);
    }
}

// ─── Routed requests ─────────────────────────────────────────────────────────

/// A request with all that decides about it.
pub struct RoutedRequest {
    pub method: String,
    /// The URI in canonical form without the tenant, under which the request is
    /// recorded and looked up.
    pub uri: String,
    /// The whole URI in canonical form, as it is forwarded.
    pub forward_uri: String,
    /// The body as text.
    pub body: String,
    pub tenant: String,
    /// Whether the tenant id was cut.
    pub tenant_truncated: bool,
    pub upstream: String,
    pub service_id: Option<String>,
    pub mode: Mode,
    pub chaos: Option<ChaosConfig>,
    pub redact_headers: Vec<String>,
}

#[verifier::ext_equal]
pub struct RoutedRequestView {
    pub method: Seq<char>,
    pub uri: Seq<char>,
    pub forward_uri: Seq<char>,
    pub body: Seq<char>,
    pub tenant: Seq<char>,
    pub tenant_truncated: bool,
    pub upstream: Seq<char>,
    pub service_id: Option<Seq<char>>,
    pub mode: Mode,
    pub chaos: Option<ChaosConfigView>,
    pub redact_headers: Seq<Seq<char>>,
}

impl DeepView for RoutedRequest {
    type V = RoutedRequestView;

    open spec fn deep_view(&self) -> RoutedRequestView {
        RoutedRequestView {
            method: self.method@,
            uri: self.uri@,
            forward_uri: self.forward_uri@,
            body: self.body@,
            tenant: self.tenant@,
            tenant_truncated: self.tenant_truncated,
            upstream: self.upstream@,
            service_id: self.service_id.deep_view(),
            mode: self.mode,
            chaos: self.chaos.deep_view(),
            redact_headers: self.redact_headers.deep_view(),
        }
    }
}

/// The service of a request; unrouted requests belong to the global one.
pub open spec fn service_key(service_id: Option<Seq<char>>) -> Seq<char> {
    match service_id {
        Some(svc) => svc,
        None => GLOBAL_TENANT@,
    }
}

/// The URI that a request is recorded and looked up under.
pub open spec fn request_uri(path_query: Seq<char>) -> Seq<char> {
    uri::normalized(without_tenant(path_query))
}

/// A request that names no tenant in its query is forwarded with the URI under which
/// it is recorded and looked up.
pub proof fn law_untagged_is_forwarded_as_recorded(path_query: Seq<char>)
    requires
        uri_tenant(path_query) is None,
    ensures
        request_uri(path_query) == uri::normalized(path_query),
{
}

/// A request with all that decides about it. The mode of the service counts before
/// the global one.
pub open spec fn routed(
    method: Seq<char>,
    path_query: Seq<char>,
    host: Seq<char>,
    tenant_header: Option<Seq<char>>,
    body: Seq<char>,
    global_mode: Mode,
    routes: Seq<UpstreamRouteView>,
    default_url: Seq<char>,
) -> RoutedRequestView {
    let whole = uri::normalized(path_query);
    let d = destination(routes, host, whole, default_url);
    RoutedRequestView {
        method,
        uri: request_uri(path_query),
        forward_uri: whole,
        body,
        tenant: tenant_of(tenant_header, path_query),
        tenant_truncated: given_tenant(tenant_header, path_query).len() > MAX_TENANT_CHARS,
        upstream: d.upstream,
        service_id: d.service_id,
        mode: match d.mode {
            Some(m) => m,
            None => global_mode,
        },
        chaos: d.chaos,
        redact_headers: d.redact_headers,
    }
}

/// Finds out all that decides about a request.
pub fn route_request(
    method: &str,
    path_query: &str,
    host: &str,
    tenant_header: Option<&str>,
    body: String,
    global_mode: Mode,
    routes: &[UpstreamRoute],
    default_url: &str,
) -> (r: RoutedRequest)
    ensures
        r.deep_view() == routed(
            method@,
            path_query@,
            host@,
            tenant_header.deep_view(),
            body@,
            global_mode,
            routes.deep_view(),
            default_url@,
        ),
{
    let choice = resolve_tenant(tenant_header, path_query);
    let whole = normalize_uri(path_query);
    let (upstream, service_id, mode, chaos, redact_headers) = resolve_upstream(
        routes,
        host,
        whole.as_str(),
        default_url,
    );
    RoutedRequest {
        method: method.to_owned(),
        uri: normalize_uri(choice.uri.as_str()),
        forward_uri: whole,
        body,
        tenant: choice.tenant,
        tenant_truncated: choice.truncated,
        upstream,
        service_id,
        mode: match mode {
            Some(m) => m,
            None => global_mode,
        },
        chaos,
        redact_headers,
    }
}

/// The first route for a request settles all that its service sets: the upstream, the
/// service, the chaos configuration and the redacted headers are those of the route, and
/// so is the mode if the route has one; without one the global mode counts.
pub proof fn law_route_settles_request(
    method: Seq<char>,
    path_query: Seq<char>,
    host: Seq<char>,
    tenant_header: Option<Seq<char>>,
    body: Seq<char>,
    global_mode: Mode,
    routes: Seq<UpstreamRouteView>,
    default_url: Seq<char>,
    k: int,
)
    requires
        0 <= k < routes.len(),
        route_matches(routes[k], host, uri::normalized(path_query)),
        forall|i: int|
            0 <= i < k ==> !route_matches(#[trigger] routes[i], host, uri::normalized(path_query)),
    ensures
        ({
            let r = routed(
                method,
                path_query,
                host,
                tenant_header,
                body,
                global_mode,
                routes,
                default_url,
            );
            &&& routes[k].mode == Some(Mode::Learn) ==> r.mode == Mode::Learn
            &&& routes[k].mode == Some(Mode::Mock) ==> r.mode == Mode::Mock
            &&& routes[k].mode == Some(Mode::Passthrough) ==> r.mode == Mode::Passthrough
            &&& routes[k].mode == Some(Mode::Transitioning) ==> r.mode == Mode::Transitioning
            &&& routes[k].mode is None ==> r.mode == global_mode
            &&& r.upstream == routes[k].upstream_url
            &&& r.service_id == Some(routes[k].service_id)
            &&& r.chaos == routes[k].chaos_config
            &&& r.redact_headers == routes[k].redact_headers
        }),
{
    law_first_route_wins(routes, host, uri::normalized(path_query), k);
}

/// A request that no route is for has the global mode, the default upstream, no service,
/// no chaos configuration and no redacted headers of its own.
pub proof fn law_unrouted_has_global_mode(
    method: Seq<char>,
    path_query: Seq<char>,
    host: Seq<char>,
    tenant_header: Option<Seq<char>>,
    body: Seq<char>,
    global_mode: Mode,
    routes: Seq<UpstreamRouteView>,
    default_url: Seq<char>,
)
    requires
        forall|i: int|
            0 <= i < routes.len() ==> !route_matches(
                #[trigger] routes[i],
                host,
                uri::normalized(path_query),
            ),
    ensures
        ({
            let r = routed(
                method,
                path_query,
                host,
                tenant_header,
                body,
                global_mode,
                routes,
                default_url,
            );
            &&& r.mode == global_mode
            &&& r.upstream == default_url
            &&& r.service_id is None
            &&& r.chaos is None
            &&& r.redact_headers.len() == 0
        }),
{
    let path = uri::normalized(path_query);
    lemma_no_route(routes, host, path);
}

proof fn lemma_no_route(routes: Seq<UpstreamRouteView>, host: Seq<char>, path: Seq<char>)
    requires
        forall|i: int| 0 <= i < routes.len() ==> !route_matches(#[trigger] routes[i], host, path),
    ensures
        first_route(routes, host, path) is None,
    decreases routes.len(),
{
    if routes.len() > 0 {
        assert(!route_matches(routes[0], host, path));
        let rest = routes.drop_first();
        assert forall|i: int| 0 <= i < rest.len() implies !route_matches(
            #[trigger] rest[i],
            host,
            path,
        ) by {
            assert(rest[i] == routes[i + 1]);
        }
        lemma_no_route(rest, host, path);
    }
}

/// A request is taken as it came: method and body are kept, and it is forwarded with its
/// whole URI in canonical form. Its tenant is the one that the header names, else the one
/// that the query names, else the global one.
pub proof fn law_request_is_taken_as_it_came(
    method: Seq<char>,
    path_query: Seq<char>,
    host: Seq<char>,
    tenant_header: Option<Seq<char>>,
    body: Seq<char>,
    global_mode: Mode,
    routes: Seq<UpstreamRouteView>,
    default_url: Seq<char>,
)
    ensures
        ({
            let r = routed(
                method,
                path_query,
                host,
                tenant_header,
                body,
                global_mode,
                routes,
                default_url,
            );
            &&& r.method == method
            &&& r.body == body
            &&& r.forward_uri == uri::normalized(path_query)
            &&& (tenant_header is Some && 0 < tenant_header->0.len() <= 128) ==> r.tenant
                == tenant_header->0 && !r.tenant_truncated
            &&& (tenant_header is Some && tenant_header->0.len() > 128) ==> r.tenant
                == tenant_header->0.take(128) && r.tenant_truncated
            &&& (tenant_header is None || tenant_header->0.len() == 0) && uri_tenant(path_query)
                is Some && 0 < uri_tenant(path_query)->0.len() <= 128 ==> r.tenant == uri_tenant(
                path_query,
            )->0 && !r.tenant_truncated
            &&& (tenant_header is None || tenant_header->0.len() == 0) && uri_tenant(path_query)
                is Some && uri_tenant(path_query)->0.len() > 128 ==> r.tenant == uri_tenant(
                path_query,
            )->0.take(128) && r.tenant_truncated
            &&& (tenant_header is None || tenant_header->0.len() == 0) && (uri_tenant(path_query)
                is None || uri_tenant(path_query)->0.len() == 0) ==> r.tenant == "_global"@
            &&& uri_tenant(path_query) is None ==> r.uri == r.forward_uri
        }),
{
    reveal_strlit("_global");
    assert("_global"@.len() == 7);
}

/// A host route is for its host, and for its host with any port; a host that is another
/// is not its own.
pub proof fn law_host_route(route: UpstreamRouteView, host: Seq<char>, port: Seq<char>, path: Seq<
    char,
>)
    requires
        route.routing_type == "host"@,
        text::lacks_char(host, ':'),
    ensures
        route_matches(route, host, path) == (host == route.routing_value),
        route.routing_value == host ==> route_matches(route, host + seq![':'] + port, path),
        route.routing_value == host + seq![':'] + port ==> route_matches(
            route,
            host + seq![':'] + port,
            path,
        ),
        route.routing_value != host && route.routing_value != host + seq![':'] + port
            ==> !route_matches(route, host + seq![':'] + port, path),
{
    text::lemma_find_char_lacking(host, ':');
    assert(host.take(host.len() as int) =~= host);
    text::lemma_find_char_after(host, ':', port);
    let whole = host + seq![':'] + port;
    assert(whole.take(host.len() as int) =~= host);
}

/// A path route is for the paths that begin with its prefix, whatever the host.
pub proof fn law_path_route(route: UpstreamRouteView, host: Seq<char>, path: Seq<char>)
    requires
        route.routing_type == "path"@,
    ensures
        route_matches(route, host, path) == (exists|rest: Seq<char>|
            path == #[trigger] (route.routing_value + rest)),
{
    reveal_strlit("host");
    reveal_strlit("path");
    assert("host"@[0] == 'h' && "path"@[0] == 'p');
    let prefix = route.routing_value;
    if text::starts_with(path, prefix) {
        assert(path =~= prefix + path.skip(prefix.len() as int));
    }
    if exists|rest: Seq<char>| path == #[trigger] (prefix + rest) {
        let rest = choose|rest: Seq<char>| path == #[trigger] (prefix + rest);
        assert(path.subrange(0, prefix.len() as int) =~= prefix);
    }
}

/// A route that is neither for a host nor for a path is for nothing.
pub proof fn law_other_route_is_for_nothing(
    route: UpstreamRouteView,
    host: Seq<char>,
    path: Seq<char>,
)
    requires
        route.routing_type != "host"@,
        route.routing_type != "path"@,
    ensures
        !route_matches(route, host, path),
{
}

impl RoutedRequest {
    /// The service of the request; unrouted requests belong to the global one.
    pub fn service(&self) -> (r: String)
        ensures
            r@ == service_key(self.deep_view().service_id),
    {
        match &self.service_id {
            Some(svc) => svc.clone(),
            None => GLOBAL_TENANT.to_owned(),
        }
    }

    /// The URL that the request is forwarded to.
    pub fn target(&self) -> (r: String)
        ensures
            r@ == self.upstream@ + self.forward_uri@,
    {
        let mut s = self.upstream.clone();
        s.append(self.forward_uri.as_str());
        s
    }
}

/// The first parameter `_tenant` of the query names the tenant.
pub proof fn law_query_names_tenant(u: Seq<char>, k: int)
    requires
        0 <= k < uri::params_of(uri::query_of(u)).len(),
        uri::params_of(uri::query_of(u))[k].0 == "_tenant"@,
        forall|i: int|
            0 <= i < k ==> (#[trigger] uri::params_of(uri::query_of(u))[i]).0 != "_tenant"@,
    ensures
        uri_tenant(u) == Some(uri::params_of(uri::query_of(u))[k].1),
{
    let parts = text::split(uri::query_of(u), '&');
    let ps = uri::params_of(uri::query_of(u));
    assert forall|i: int| 0 <= i < k implies uri::param_of(#[trigger] parts[i]).0 != "_tenant"@ by {
        assert(ps[i] == uri::param_of(parts[i]));
    }
    assert(ps[k] == uri::param_of(parts[k]));
    lemma_first_tenant(parts, k);
}

proof fn lemma_first_tenant(parts: Seq<Seq<char>>, k: int)
    requires
        0 <= k < parts.len(),
        uri::param_of(parts[k]).0 == TENANT_PARAM@,
        forall|i: int| 0 <= i < k ==> uri::param_of(#[trigger] parts[i]).0 != TENANT_PARAM@,
    ensures
        tenant_in(parts) == Some(uri::param_of(parts[k]).1),
    decreases parts.len(),
{
    if k > 0 {
        let rest = parts.drop_first();
        assert(uri::param_of(parts[0]).0 != TENANT_PARAM@);
        assert(rest[k - 1] == parts[k]);
        assert forall|i: int| 0 <= i < k - 1 implies uri::param_of(#[trigger] rest[i]).0
            != TENANT_PARAM@ by {
            assert(rest[i] == parts[i + 1]);
        }
        lemma_first_tenant(rest, k - 1);
    }
}

/// Without a parameter `_tenant` the query names no tenant.
pub proof fn law_query_without_tenant(u: Seq<char>)
    requires
        forall|i: int|
            0 <= i < uri::params_of(uri::query_of(u)).len() ==> (#[trigger] uri::params_of(
                uri::query_of(u),
            )[i]).0 != "_tenant"@,
    ensures
        uri_tenant(u) is None,
{
    let parts = text::split(uri::query_of(u), '&');
    let ps = uri::params_of(uri::query_of(u));
    assert forall|i: int| 0 <= i < parts.len() implies uri::param_of(#[trigger] parts[i]).0
        != TENANT_PARAM@ by {
        assert(ps[i] == uri::param_of(parts[i]));
    }
    lemma_no_tenant_in(parts);
}

/// Of a URI that names a tenant all other parameters stay, in their order.
pub proof fn law_other_parameters_stay(u: Seq<char>)
    requires
        uri_tenant(u) is Some,
    ensures
        ({
            let kept = text::split(uri::query_of(u), '&').filter(
                |kv: Seq<char>| uri::param_of(kv).0 != "_tenant"@,
            );
            &&& kept.len() > 0 ==> text::split(uri::query_of(without_tenant(u)), '&') == kept
            &&& kept.len() == 0 ==> without_tenant(u) == uri::path_of(u)
        }),
{
    let parts = text::split(uri::query_of(u), '&');
    lemma_other_params_filter(parts);
    let kept = other_params(parts);
    let path = uri::path_of(u);
    text::lemma_split_parts_lack(uri::query_of(u), '&');
    lemma_other_params(parts);
    text::lemma_find_char(u, '?');
    assert(text::lacks_char(path, '?'));
    if kept.len() > 0 {
        let q = text::join(kept, seq!['&']);
        text::lemma_find_char_after(path, '?', q);
        assert((path + seq!['?'] + q).skip(path.len() as int + 1) =~= q);
        text::lemma_split_join(kept, '&');
    }
}

proof fn lemma_other_params_filter(parts: Seq<Seq<char>>)
    ensures
        other_params(parts) == parts.filter(|kv: Seq<char>| uri::param_of(kv).0 != "_tenant"@),
    decreases parts.len(),
{
    reveal(Seq::filter);
    if parts.len() > 0 {
        lemma_other_params_filter(parts.drop_last());
    }
}

} // verus!
