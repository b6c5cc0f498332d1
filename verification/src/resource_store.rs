//! Captured resources: what a `POST` created is served on a later `GET`.
use crate::chars;
use crate::chars::trim;
use crate::dup::Dup;
use crate::json::Json;
use crate::json::JsonModel;
use crate::ordmap;
use crate::ordmap::OrdMap;
use crate::statechart;
use crate::statechart::RegistryView;
use crate::statechart::StatechartRegistry;
use crate::text;
use crate::text::has_suffix;
use crate::text::lines_of;
use crate::text::slice_text;
use crate::text::strip_last;
use crate::timestamps;
use crate::timestamps::Timestamp;
use std::sync::Arc;
use vstd::prelude::*;
use vstd::string::StrSliceExecFns;
use vstd::string::StringExecFns;

verus! {

/// How deep below the top of a body an id is looked for.
pub const MAX_ID_EXTRACTION_DEPTH: usize = 3;

/// A captured resource.
pub struct ResourceState {
    /// The collection, such as `charges`.
    pub collection: String,
    /// The id, such as `ch_abc123`.
    pub id: String,
    /// The captured response body.
    pub body: Json,
    /// The statechart that the resource follows, if any.
    pub statechart: Option<String>,
    /// The state in that statechart.
    pub current_state: Option<String>,
    /// When the resource was captured.
    pub created_at: Timestamp,
    /// When it last changed.
    pub updated_at: Timestamp,
    /// The status of the captured response.
    pub status: u16,
    /// The content type of the captured response.
    pub content_type: String,
}

#[verifier::ext_equal]
pub struct ResourceView {
    pub collection: Seq<char>,
    pub id: Seq<char>,
    pub body: JsonModel,
    pub statechart: Option<Seq<char>>,
    pub current_state: Option<Seq<char>>,
    pub created_at: Timestamp,
    pub updated_at: Timestamp,
    pub status: u16,
    pub content_type: Seq<char>,
}

impl DeepView for ResourceState {
    type V = ResourceView;

    open spec fn deep_view(&self) -> ResourceView {
        ResourceView {
            collection: self.collection@,
            id: self.id@,
            body: self.body.model(),
            statechart: self.statechart.deep_view(),
            current_state: self.current_state.deep_view(),
            created_at: self.created_at,
            updated_at: self.updated_at,
            status: self.status,
            content_type: self.content_type@,
        }
    }
}

impl Dup for ResourceState {
    fn dup(&self) -> (r: Self) {
        ResourceState {
            collection: self.collection.clone(),
            id: self.id.clone(),
            body: self.body.dup(),
            statechart: self.statechart.dup(),
            current_state: self.current_state.dup(),
            created_at: self.created_at,
            updated_at: self.updated_at,
            status: self.status,
            content_type: self.content_type.clone(),
        }
    }
}

/// The status of a captured resource that names none.
pub fn default_status() -> (r: u16)
    ensures
        r == 200,
{
    200
}

/// The content type of a captured resource that names none.
pub fn default_content_type() -> (r: String)
    ensures
        r@ == "application/json"@,
{
    "application/json".to_owned()
}

/// Why a resource was not captured.
#[derive(Debug)]
pub enum ResourceStoreError {
    /// The body of this collection holds no id.
    IdNotFound(String),
}

impl ResourceStoreError {
    /// The error in words.
    pub fn message(&self) -> (r: String)
        ensures
            r@ == (match self {
                ResourceStoreError::IdNotFound(c) =>
                    "no id field found in response body for collection "@ + c@,
            }),
    {
        match self {
            ResourceStoreError::IdNotFound(c) => {
                let mut s = "no id field found in response body for collection ".to_owned();
                s.append(c.as_str());
                s
            },
        }
    }
}

// ─── Id extraction ───────────────────────────────────────────────────────────

/// The id that a value gives: a string that is not empty, or a number's text.
pub open spec fn id_text(m: JsonModel) -> Option<Seq<char>> {
    match m {
        JsonModel::Str(s) => if s.len() > 0 {
            Some(s)
        } else {
            None
        },
        JsonModel::Number(t) => Some(t),
        _ => None,
    }
}

/// The id under the first of the candidate keys that gives one.
pub open spec fn candidate_id(
    members: Seq<(Seq<char>, JsonModel)>,
    candidates: Seq<Seq<char>>,
) -> Option<Seq<char>>
    decreases candidates.len(),
{
    if candidates.len() == 0 {
        None
    } else {
        let m = ordmap::pairs_map(members);
        if m.contains_key(candidates[0]) && id_text(m[candidates[0]]) is Some {
            id_text(m[candidates[0]])
        } else {
            candidate_id(members, candidates.drop_first())
        }
    }
}

/// The id in a body, at most 3 levels below the top: one of an object itself before
/// one further in, and those further in from left to right.
pub open spec fn walked_id(m: JsonModel, candidates: Seq<Seq<char>>, depth: nat) -> Option<
    Seq<char>,
>
    decreases m, 0nat,
{
    if depth > MAX_ID_EXTRACTION_DEPTH {
        None
    } else {
        match m {
            JsonModel::Object(members) => match candidate_id(members, candidates) {
                Some(s) => Some(s),
                None => members_id(members, candidates, depth + 1, members.len()),
            },
            JsonModel::Array(items) => items_id(items, candidates, depth + 1, items.len()),
            _ => None,
        }
    }
}

/// The id in the first of the first `n` members that holds one.
pub open spec fn members_id(
    members: Seq<(Seq<char>, JsonModel)>,
    candidates: Seq<Seq<char>>,
    depth: nat,
    n: nat,
) -> Option<Seq<char>>
    decreases members, n,
{
    if n == 0 || n > members.len() {
        None
    } else {
        match members_id(members, candidates, depth, (n - 1) as nat) {
            Some(s) => Some(s),
            None => walked_id(members[n - 1].1, candidates, depth),
        }
    }
}

/// The id in the first of the first `n` items that holds one.
pub open spec fn items_id(
    items: Seq<JsonModel>,
    candidates: Seq<Seq<char>>,
    depth: nat,
    n: nat,
) -> Option<Seq<char>>
    decreases items, n,
{
    if n == 0 || n > items.len() {
        None
    } else {
        match items_id(items, candidates, depth, (n - 1) as nat) {
            Some(s) => Some(s),
            None => walked_id(items[n - 1], candidates, depth),
        }
    }
}

/// The name of one item of a collection: without a final `s`.
pub open spec fn singular_of(collection: Seq<char>) -> Seq<char> {
    match text::without_last(collection, 's') {
        Some(s) => s,
        None => collection,
    }
}

/// The keys that can hold the id: the hinted one, `id`, `_id`, and that of the
/// collection.
pub open spec fn id_candidates(collection: Seq<char>, hint: Option<Seq<char>>) -> Seq<Seq<char>> {
    let rest = seq!["id"@, "_id"@, singular_of(collection) + "_id"@];
    match hint {
        Some(h) => seq![h] + rest,
        None => rest,
    }
}

/// The id in a body of this collection.
pub open spec fn id_in(
    body: JsonModel,
    collection: Seq<char>,
    hint: Option<Seq<char>>,
) -> Option<Seq<char>> {
    walked_id(body, id_candidates(collection, hint), 0)
}

fn stringify_id(v: &Json) -> (r: Option<String>)
    ensures
        r.deep_view() == id_text(v.model()),
{
    match v {
        Json::Str(s) => {
            if s.as_str().is_empty() {
                None
            } else {
                Some(s.clone())
            }
        },
        Json::Number(n) => Some(Json::number_string(n)),
        _ => None,
    }
}

fn find_candidate(map: &OrdMap<String, Json>, candidates: &Vec<String>) -> (r: Option<String>)
    ensures
        r.deep_view() == candidate_id(
            Json::Object(*map).model()->Object_0,
            candidates.deep_view(),
        ),
{
    let ghost ms = Json::Object(*map).model()->Object_0;
    let ghost cs = candidates.deep_view();
    let n = map.len();
    proof {
        ordmap::lemma_deep_pairs::<String, Json>(map.pairs());
        assert(ms =~= ordmap::deep_pairs(map.pairs()));
    }
    let mut i: usize = 0;
    assert(cs.skip(0) =~= cs);
    while i < candidates.len()
        invariant
            i <= candidates@.len(),
            cs == candidates.deep_view(),
            ms == Json::Object(*map).model()->Object_0,
            ordmap::pairs_map(ms) == map.deep_view(),
            candidate_id(ms, cs) == candidate_id(ms, cs.skip(i as int)),
        decreases candidates@.len() - i,
    {
        proof {
            let t = cs.skip(i as int);
            assert(t[0] == candidates@[i as int]@);
            assert(t.drop_first() =~= cs.skip(i + 1));
        }
        if let Some(v) = map.get(&candidates[i]) {
            if let Some(s) = stringify_id(v) {
                return Some(s);
            }
        }
        i += 1;
    }
    None
}

#[verifier::loop_isolation(false)]
fn walk_for_id(value: &Json, candidates: &Vec<String>, depth: usize) -> (r: Option<String>)
    requires
        depth <= MAX_ID_EXTRACTION_DEPTH + 1,
    ensures
        r.deep_view() == walked_id(value.model(), candidates.deep_view(), depth as nat),
    decreases value,
{
    let ghost cs = candidates.deep_view();
    if depth > MAX_ID_EXTRACTION_DEPTH {
        return None;
    }
    match value {
        Json::Object(map) => {
            let ghost ms = value.model()->Object_0;
            if let Some(s) = find_candidate(map, candidates) {
                return Some(s);
            }
            let n = map.len();
            let mut i: usize = 0;
            while i < n
                invariant
                    i <= n,
                    n == map.pairs().len(),
                    members_id(ms, cs, (depth + 1) as nat, i as nat) is None,
                decreases n - i,
            {
                proof {
                    assert(decreases_to!(*value => *map));
                    ordmap::lemma_value_is_smaller(*map, i as int);
                    assert(ms[i as int].1 == map.pairs()[i as int].1.model());
                    lemma_members_id_stays(ms, cs, (depth + 1) as nat, (i + 1) as nat, ms.len());
                }
                if let Some(found) = walk_for_id(map.value_at(i), candidates, depth + 1) {
                    return Some(found);
                }
                i += 1;
            }
            None
        },
        Json::Array(arr) => {
            let ghost ms = value.model()->Array_0;
            let mut i: usize = 0;
            while i < arr.len()
                invariant
                    i <= arr@.len(),
                    items_id(ms, cs, (depth + 1) as nat, i as nat) is None,
                decreases arr@.len() - i,
            {
                proof {
                    assert(decreases_to!(*value => *arr));
                    assert(decreases_to!(arr@ => arr@[i as int]));
                    assert(ms[i as int] == arr@[i as int].model());
                    lemma_items_id_stays(ms, cs, (depth + 1) as nat, (i + 1) as nat, ms.len());
                }
                if let Some(found) = walk_for_id(&arr[i], candidates, depth + 1) {
                    return Some(found);
                }
                i += 1;
            }
            None
        },
        _ => None,
    }
}

proof fn lemma_members_id_stays(
    members: Seq<(Seq<char>, JsonModel)>,
    candidates: Seq<Seq<char>>,
    depth: nat,
    i: nat,
    n: nat,
)
    requires
        i <= n <= members.len(),
    ensures
        members_id(members, candidates, depth, i) is Some ==> members_id(
            members,
            candidates,
            depth,
            n,
        ) == members_id(members, candidates, depth, i),
    decreases n,
{
    if i < n {
        lemma_members_id_stays(members, candidates, depth, i, (n - 1) as nat);
    }
}

proof fn lemma_items_id_stays(
    items: Seq<JsonModel>,
    candidates: Seq<Seq<char>>,
    depth: nat,
    i: nat,
    n: nat,
)
    requires
        i <= n <= items.len(),
    ensures
        items_id(items, candidates, depth, i) is Some ==> items_id(items, candidates, depth, n)
            == items_id(items, candidates, depth, i),
    decreases n,
{
    if i < n {
        lemma_items_id_stays(items, candidates, depth, i, (n - 1) as nat);
    }
}

/// The id in a body of this collection: under the hinted key, `id`, `_id` or that of
/// the collection, at the top or at most 3 levels below.
pub fn extract_id(body: &Json, collection: &str, hint: Option<&str>) -> (r: Option<String>)
    ensures
        r.deep_view() == id_in(body.model(), collection@, hint.deep_view()),
{
    let mut singular_id = match strip_last(collection, 's') {
        Some(s) => s,
        None => collection.to_owned(),
    };
    singular_id.append("_id");
    let mut candidates: Vec<String> = Vec::new();
    if let Some(h) = hint {
        candidates.push(h.to_owned());
    }
    candidates.push("id".to_owned());
    candidates.push("_id".to_owned());
    candidates.push(singular_id);
    assert(candidates.deep_view() =~= id_candidates(collection@, hint.deep_view()));
    walk_for_id(body, &candidates, 0)
}

/// An id of the body itself counts before one further in.
pub proof fn law_own_id_first(
    members: Seq<(Seq<char>, JsonModel)>,
    collection: Seq<char>,
    hint: Option<Seq<char>>,
)
    requires
        candidate_id(members, id_candidates(collection, hint)) is Some,
    ensures
        id_in(JsonModel::Object(members), collection, hint) == candidate_id(
            members,
            id_candidates(collection, hint),
        ),
{
}

/// The hinted key counts before the others.
pub proof fn law_hint_first(
    members: Seq<(Seq<char>, JsonModel)>,
    collection: Seq<char>,
    hint: Seq<char>,
)
    requires
        ordmap::pairs_map(members).contains_key(hint),
        id_text(ordmap::pairs_map(members)[hint]) is Some,
    ensures
        id_in(JsonModel::Object(members), collection, Some(hint)) == id_text(
            ordmap::pairs_map(members)[hint],
        ),
{
    let cs = id_candidates(collection, Some(hint));
    assert(cs[0] == hint);
}

// ─── The store ───────────────────────────────────────────────────────────────

/// The resources of a service by collection and id.
pub type ServiceResources = OrdMap<(String, String), ResourceState>;

/// What the resources of a service stand for.
pub type ServiceResourcesView = Map<(Seq<char>, Seq<char>), ResourceView>;

/// What the resources of all services stand for.
pub type ResourcesView = Map<Seq<char>, ServiceResourcesView>;

/// The captured resources of all services.
pub struct ResourceStore {
    by_service: OrdMap<String, ServiceResources>,
    data_dir: String,
    registry: Option<Arc<StatechartRegistry>>,
}

#[verifier::ext_equal]
pub struct StoreView {
    pub resources: ResourcesView,
    pub data_dir: Seq<char>,
    pub registry: Option<RegistryView>,
}

impl DeepView for ResourceStore {
    type V = StoreView;

    closed spec fn deep_view(&self) -> StoreView {
        StoreView {
            resources: self.by_service.deep_view(),
            data_dir: self.data_dir@,
            registry: self.registry.deep_view(),
        }
    }
}

/// The resource of a service under a collection and an id.
pub open spec fn resource_at(
    resources: ResourcesView,
    svc: Seq<char>,
    collection: Seq<char>,
    id: Seq<char>,
) -> Option<ResourceView> {
    if resources.contains_key(svc) && resources[svc].contains_key((collection, id)) {
        Some(resources[svc][(collection, id)])
    } else {
        None
    }
}

/// The resources with one put under its collection and id.
pub open spec fn with_resource(
    resources: ResourcesView,
    svc: Seq<char>,
    collection: Seq<char>,
    id: Seq<char>,
    r: ResourceView,
) -> ResourcesView {
    let bucket = if resources.contains_key(svc) {
        resources[svc]
    } else {
        Map::empty()
    };
    resources.insert(svc, bucket.insert((collection, id), r))
}

/// The machine that a collection follows: the one of its name, or of the name of one
/// of its items.
pub open spec fn bound_chart(registry: Option<RegistryView>, collection: Seq<char>) -> Option<
    Seq<char>,
> {
    match registry {
        Some(reg) => if reg.contains_key(collection) {
            Some(collection)
        } else {
            match text::without_last(collection, 's') {
                Some(singular) => if reg.contains_key(singular) {
                    Some(singular)
                } else {
                    None
                },
                None => None,
            }
        },
        None => None,
    }
}

/// A resource as it is captured.
pub open spec fn captured(
    registry: Option<RegistryView>,
    collection: Seq<char>,
    id: Seq<char>,
    body: JsonModel,
    content_type: Option<Seq<char>>,
    status: u16,
    now: Timestamp,
) -> ResourceView {
    let chart = bound_chart(registry, collection);
    ResourceView {
        collection,
        id,
        body,
        statechart: chart,
        current_state: match chart {
            Some(m) => Some(registry->0[m].initial),
            None => None,
        },
        created_at: now,
        updated_at: now,
        status,
        content_type: match content_type {
            Some(c) => c,
            None => "application/json"@,
        },
    }
}

/// A body whose string in the given field is replaced. A body without such a string
/// stays as it is.
pub open spec fn with_status(body: JsonModel, field: Seq<char>, state: Seq<char>) -> JsonModel {
    match body {
        JsonModel::Object(members) => {
            let m = ordmap::pairs_map(members);
            if m.contains_key(field) && m[field] is Str {
                JsonModel::Object(
                    ordmap::sorted_pairs::<String, JsonModel>(
                        m.insert(field, JsonModel::Str(state)),
                    ),
                )
            } else {
                body
            }
        },
        _ => body,
    }
}

/// The state that follows on an action for a resource, if it follows a machine that
/// has such a transition.
pub open spec fn resource_next(
    registry: Option<RegistryView>,
    r: ResourceView,
    action: Seq<char>,
) -> Option<Seq<char>> {
    match (registry, r.statechart, r.current_state) {
        (Some(reg), Some(chart), Some(current)) => if reg.contains_key(chart) {
            statechart::next_state(reg[chart], current, action)
        } else {
            None
        },
        _ => None,
    }
}

/// A resource after a transition.
pub open spec fn transitioned(
    registry: RegistryView,
    r: ResourceView,
    next: Seq<char>,
    now: Timestamp,
) -> ResourceView {
    ResourceView {
        current_state: Some(next),
        updated_at: now,
        body: with_status(r.body, registry[r.statechart->0].status_field, next),
        ..r
    }
}

fn set_status(body: &mut Json, field: &str, state: &str)
    ensures
        final(body).model() == with_status(old(body).model(), field@, state@),
{
    let ghost before = body.model();
    let mut taken = Json::Null;
    std::mem::swap(&mut taken, body);
    match taken {
        Json::Object(m) => {
            let mut map = m;
            let ghost ms = before->Object_0;
            let key = field.to_owned();
            let _n = map.len();
            let ghost mv = map.deep_view();
            proof {
                ordmap::lemma_deep_pairs::<String, Json>(map.pairs());
                assert(ms =~= ordmap::deep_pairs(map.pairs()));
            }
            let is_text = match map.get(&key) {
                Some(Json::Str(_)) => true,
                _ => false,
            };
            if is_text {
                map.insert(key, Json::Str(state.to_owned()));
                let _k = map.len();
                proof {
                    assert(map.deep_view() =~= mv.insert(field@, JsonModel::Str(state@)));
                    ordmap::lemma_deep_pairs::<String, Json>(map.pairs());
                    assert(Json::Object(map).model()->Object_0 =~= ordmap::deep_pairs(
                        map.pairs(),
                    ));
                }
            }
            *body = Json::Object(map);
        },
        other => {
            *body = other;
        },
    }
}

/// The number of resources of the services together.
pub open spec fn resources_count(services: Seq<(Seq<char>, ServiceResourcesView)>) -> nat
    decreases services.len(),
{
    if services.len() == 0 {
        0
    } else {
        resources_count(services.drop_last()) + services.last().1.dom().len()
    }
}

/// The number of resources.
pub open spec fn store_count(resources: ResourcesView) -> nat {
    resources_count(ordmap::sorted_pairs::<String, ServiceResourcesView>(resources))
}

proof fn lemma_resources_count_grows(services: Seq<(Seq<char>, ServiceResourcesView)>, n: int)
    requires
        0 <= n <= services.len(),
    ensures
        resources_count(services.take(n)) <= resources_count(services),
    decreases services.len() - n,
{
    if n < services.len() {
        lemma_resources_count_grows(services, n + 1);
        let t = services.take(n + 1);
        assert(t.drop_last() =~= services.take(n));
    } else {
        assert(services.take(n) =~= services);
    }
}

/// The resources of a service by ascending collection and id.
pub open spec fn listed(bucket: ServiceResourcesView) -> Seq<ResourceView> {
    ordmap::sorted_pairs::<(String, String), ResourceView>(bucket).map_values(
        |p: ((Seq<char>, Seq<char>), ResourceView)| p.1,
    )
}

/// The resources put one after the other under their collection and id: of equal
/// ones the last counts.
pub open spec fn replayed(rs: Seq<ResourceView>) -> ServiceResourcesView
    decreases rs.len(),
{
    if rs.len() == 0 {
        Map::empty()
    } else {
        replayed(rs.drop_last()).insert((rs.last().collection, rs.last().id), rs.last())
    }
}

/// A capture with this outcome: the id of the resource and the store with it, or an
/// error and the store as it was if the body has no id.
pub open spec fn captures(
    before: StoreView,
    after: StoreView,
    r: Result<String, ResourceStoreError>,
    service_id: Seq<char>,
    collection: Seq<char>,
    body: JsonModel,
    hint: Option<Seq<char>>,
    content_type: Option<Seq<char>>,
    status: u16,
    now: Timestamp,
) -> bool {
    match id_in(body, collection, hint) {
        Some(id) => r is Ok && r->Ok_0@ == id && after == (StoreView {
            resources: with_resource(
                before.resources,
                service_id,
                collection,
                id,
                captured(before.registry, collection, id, body, content_type, status, now),
            ),
            ..before
        }),
        None => r is Err && r->Err_0->IdNotFound_0@ == collection && after == before,
    }
}

/// A transition with this outcome: the next state and the store with the resource in
/// it, or nothing and the store as it was.
pub open spec fn moves(
    before: StoreView,
    after: StoreView,
    r: Option<String>,
    service_id: Seq<char>,
    collection: Seq<char>,
    id: Seq<char>,
    action: Seq<char>,
    now: Timestamp,
) -> bool {
    match resource_at(before.resources, service_id, collection, id) {
        Some(res) => match resource_next(before.registry, res, action) {
            Some(next) => r.deep_view() == Some(next) && after == (StoreView {
                resources: with_resource(
                    before.resources,
                    service_id,
                    collection,
                    id,
                    transitioned(before.registry->0, res, next, now),
                ),
                ..before
            }),
            None => r is None && after == before,
        },
        None => r is None && after == before,
    }
}

impl ResourceStore {
    /// An empty store. With an empty `data_dir` nothing is kept on disk.
    pub fn new(data_dir: String, registry: Option<Arc<StatechartRegistry>>) -> (r: Self)
        ensures
            r.deep_view() == (StoreView {
                resources: Map::empty(),
                data_dir: data_dir@,
                registry: registry.deep_view(),
            }),
    {
        let r = ResourceStore { by_service: OrdMap::new(), data_dir, registry };
        assert(r.by_service.deep_view() =~= Map::empty());
        r
    }

    /// The captured resource under a service, a collection and an id.
    pub fn lookup(&self, service_id: &str, collection: &str, id: &str) -> (r: Option<ResourceState>)
        ensures
            r.deep_view() == resource_at(
                self.deep_view().resources,
                service_id@,
                collection@,
                id@,
            ),
    {
        match self.by_service.get(&service_id.to_owned()) {
            Some(svc) => match svc.get(&(collection.to_owned(), id.to_owned())) {
                Some(state) => Some(state.dup()),
                None => None,
            },
            None => None,
        }
    }

    /// The number of resources of all services. It has to fit in a `usize`.
    pub fn len(&self) -> (r: usize)
        requires
            store_count(self.deep_view().resources) <= usize::MAX,
        ensures
            r == store_count(self.deep_view().resources),
    {
        let n = self.by_service.len();
        let ghost vs = ordmap::deep_pairs(self.by_service.pairs());
        proof {
            ordmap::lemma_deep_pairs::<String, ServiceResources>(self.by_service.pairs());
            assert(vs.take(0) =~= Seq::empty());
        }
        let mut count: usize = 0;
        let mut i: usize = 0;
        while i < n
            invariant
                n == self.by_service.pairs().len(),
                i <= n,
                vs == ordmap::deep_pairs(self.by_service.pairs()),
                resources_count(vs) <= usize::MAX,
                count == resources_count(vs.take(i as int)),
            decreases n - i,
        {
            let svc = self.by_service.value_at(i);
            let k = svc.len();
            proof {
                let t = vs.take(i + 1);
                assert(t.drop_last() =~= vs.take(i as int));
                assert(t.last() == vs[i as int]);
                assert(vs[i as int].1 == svc.deep_view());
                assert(svc.deep_view().dom() =~= svc@.dom());
                lemma_resources_count_grows(vs, i + 1);
            }
            count += k;
            i += 1;
        }
        assert(vs.take(i as int) =~= vs);
        count
    }

    /// Whether there is no resource.
    pub fn is_empty(&self) -> (r: bool)
        ensures
            r == (store_count(self.deep_view().resources) == 0),
    {
        let n = self.by_service.len();
        let ghost vs = ordmap::deep_pairs(self.by_service.pairs());
        proof {
            ordmap::lemma_deep_pairs::<String, ServiceResources>(self.by_service.pairs());
            assert(vs.take(0) =~= Seq::empty());
        }
        let mut i: usize = 0;
        while i < n
            invariant
                n == self.by_service.pairs().len(),
                i <= n,
                vs == ordmap::deep_pairs(self.by_service.pairs()),
                vs == ordmap::sorted_pairs::<String, ServiceResourcesView>(
                    self.deep_view().resources,
                ),
                resources_count(vs.take(i as int)) == 0,
            decreases n - i,
        {
            let svc = self.by_service.value_at(i);
            let k = svc.len();
            proof {
                let t = vs.take(i + 1);
                assert(t.drop_last() =~= vs.take(i as int));
                assert(t.last() == vs[i as int]);
                assert(vs[i as int].1 == svc.deep_view());
                assert(svc.deep_view().dom() =~= svc@.dom());
                lemma_resources_count_grows(vs, i + 1);
            }
            if k > 0 {
                return false;
            }
            i += 1;
        }
        assert(vs.take(i as int) =~= vs);
        true
    }

    /// The resources of a service by ascending collection and id.
    pub fn list(&self, service_id: &str) -> (r: Vec<ResourceState>)
        ensures
            r.deep_view() == (if self.deep_view().resources.contains_key(service_id@) {
                listed(self.deep_view().resources[service_id@])
            } else {
                Seq::empty()
            }),
    {
        let mut out: Vec<ResourceState> = Vec::new();
        match self.by_service.get(&service_id.to_owned()) {
            Some(svc) => {
                let n = svc.len();
                let ghost ps = ordmap::deep_pairs(svc.pairs());
                proof {
                    ordmap::lemma_deep_pairs::<(String, String), ResourceState>(svc.pairs());
                }
                let mut i: usize = 0;
                while i < n
                    invariant
                        n == svc.pairs().len(),
                        i <= n,
                        ps == ordmap::deep_pairs(svc.pairs()),
                        out@.len() == i,
                        forall|j: int| 0 <= j < i ==> #[trigger] out@[j].deep_view() == ps[j].1,
                    decreases n - i,
                {
                    out.push(svc.value_at(i).dup());
                    i += 1;
                }
                assert(out.deep_view() =~= listed(svc.deep_view()));
            },
            None => {
                assert(out.deep_view() =~= Seq::empty());
            },
        }
        out
    }

    fn put(&mut self, service_id: &str, collection: &str, id: &str, state: ResourceState)
        ensures
            final(self).deep_view() == (StoreView {
                resources: with_resource(
                    old(self).deep_view().resources,
                    service_id@,
                    collection@,
                    id@,
                    state.deep_view(),
                ),
                ..old(self).deep_view()
            }),
    {
        let ghost before = self.deep_view().resources;
        let ghost sv = state.deep_view();
        let svc_key = service_id.to_owned();
        let mut bucket: ServiceResources = match self.by_service.remove(&svc_key) {
            Some(b) => b,
            None => OrdMap::new(),
        };
        let ghost bv = bucket.deep_view();
        assert(bv =~= if before.contains_key(service_id@) {
            before[service_id@]
        } else {
            Map::empty()
        });
        bucket.insert((collection.to_owned(), id.to_owned()), state);
        assert(bucket.deep_view() =~= bv.insert((collection@, id@), sv));
        self.by_service.insert(svc_key, bucket);
        assert(self.by_service.deep_view() =~= with_resource(
            before,
            service_id@,
            collection@,
            id@,
            sv,
        ));
    }

    fn bind_chart(&self, collection: &str) -> (r: Option<String>)
        ensures
            r.deep_view() == bound_chart(self.deep_view().registry, collection@),
    {
        match &self.registry {
            Some(reg) => {
                if reg.get(collection).is_some() {
                    return Some(collection.to_owned());
                }
                match strip_last(collection, 's') {
                    Some(singular) => {
                        if reg.get(singular.as_str()).is_some() {
                            Some(singular)
                        } else {
                            None
                        }
                    },
                    None => None,
                }
            },
            None => None,
        }
    }

    /// Captures the response to a creating request at `now`: keeps its body under the
    /// id that it holds, in the initial state of the machine that the collection
    /// follows. Returns the id.
    pub fn capture_create_at(
        &mut self,
        service_id: &str,
        collection: &str,
        body: &Json,
        id_field_hint: Option<&str>,
        content_type: Option<&str>,
        status: u16,
        now: Timestamp,
    ) -> (r: Result<String, ResourceStoreError>)
        ensures
            captures(
                old(self).deep_view(),
                final(self).deep_view(),
                r,
                service_id@,
                collection@,
                body.model(),
                id_field_hint.deep_view(),
                content_type.deep_view(),
                status,
                now,
            ),
    {
        let id = match extract_id(body, collection, id_field_hint) {
            Some(id) => id,
            None => {
                return Err(ResourceStoreError::IdNotFound(collection.to_owned()));
            },
        };
        let chart = self.bind_chart(collection);
        let current_state = match (&chart, &self.registry) {
            (Some(name), Some(reg)) => match reg.get(name.as_str()) {
                Some(sm) => Some(sm.initial.clone()),
                None => None,
            },
            _ => None,
        };
        let state = ResourceState {
            collection: collection.to_owned(),
            id: id.clone(),
            body: body.dup(),
            statechart: chart,
            current_state,
            created_at: now,
            updated_at: now,
            status,
            content_type: match content_type {
                Some(c) => c.to_owned(),
                None => default_content_type(),
            },
        };
        self.put(service_id, collection, id.as_str(), state);
        Ok(id)
    }

    /// Captures the response to a creating request at the time on the system clock.
    /// Returns the id.
    pub fn capture_create(
        &mut self,
        service_id: &str,
        collection: &str,
        body: &Json,
        id_field_hint: Option<&str>,
        content_type: Option<&str>,
        status: u16,
    ) -> (r: Result<String, ResourceStoreError>)
        ensures
            exists|now: Timestamp|
                timestamps::in_calendar(now) && #[trigger] captures(
                    old(self).deep_view(),
                    final(self).deep_view(),
                    r,
                    service_id@,
                    collection@,
                    body.model(),
                    id_field_hint.deep_view(),
                    content_type.deep_view(),
                    status,
                    now,
                ),
    {
        let now = Timestamp::now();
        self.capture_create_at(
            service_id,
            collection,
            body,
            id_field_hint,
            content_type,
            status,
            now,
        )
    }

    /// Moves a captured resource on by an action at `now`. Its state changes, and the string
    /// in the status field of its body with it. Returns the new state; nothing
    /// changes if the resource follows no machine or has no such transition.
    pub fn apply_transition_at(
        &mut self,
        service_id: &str,
        collection: &str,
        id: &str,
        action: &str,
        now: Timestamp,
    ) -> (r: Option<String>)
        ensures
            moves(
                old(self).deep_view(),
                final(self).deep_view(),
                r,
                service_id@,
                collection@,
                id@,
                action@,
                now,
            ),
    {
        let mut state = match self.lookup(service_id, collection, id) {
            Some(s) => s,
            None => {
                return None;
            },
        };
        let (next, status_field) = match (&self.registry, &state.statechart, &state.current_state) {
            (Some(reg), Some(chart), Some(current)) => match reg.get(chart.as_str()) {
                Some(sm) => match sm.apply(current.as_str(), action) {
                    Some(next) => (next, sm.status_field.clone()),
                    None => {
                        return None;
                    },
                },
                None => {
                    return None;
                },
            },
            _ => {
                return None;
            },
        };
        state.current_state = Some(next.clone());
        state.updated_at = now;
        set_status(&mut state.body, status_field.as_str(), next.as_str());
        self.put(service_id, collection, id, state);
        Some(next)
    }

    /// Moves a captured resource on by an action at the time on the system clock.
    pub fn apply_transition(
        &mut self,
        service_id: &str,
        collection: &str,
        id: &str,
        action: &str,
    ) -> (r: Option<String>)
        ensures
            exists|now: Timestamp|
                timestamps::in_calendar(now) && #[trigger] moves(
                    old(self).deep_view(),
                    final(self).deep_view(),
                    r,
                    service_id@,
                    collection@,
                    id@,
                    action@,
                    now,
                ),
    {
        let now = Timestamp::now();
        self.apply_transition_at(service_id, collection, id, action, now)
    }

    /// Drops a captured resource. Returns whether there was one.
    pub fn delete(&mut self, service_id: &str, collection: &str, id: &str) -> (r: bool)
        ensures
            drops(
                old(self).deep_view(),
                final(self).deep_view(),
                r,
                service_id@,
                collection@,
                id@,
            ),
    {
        let ghost before = self.deep_view().resources;
        let svc_key = service_id.to_owned();
        match self.by_service.remove(&svc_key) {
            Some(b) => {
                let mut bucket = b;
                let ghost bv = bucket.deep_view();
                let removed = bucket.remove(&(collection.to_owned(), id.to_owned()));
                assert(bucket.deep_view() =~= bv.remove((collection@, id@)));
                self.by_service.insert(svc_key, bucket);
                assert(self.by_service.deep_view() =~= before.insert(
                    service_id@,
                    bv.remove((collection@, id@)),
                ));
                removed.is_some()
            },
            None => {
                assert(self.by_service.deep_view() =~= before);
                false
            },
        }
    }

    /// Takes up the resources read from the file of a service, in place of what the
    /// store holds of it. Nothing changes if there are none. Returns whether the file
    /// is to be rewritten: when it had more lines than resources are left.
    pub fn restore(&mut self, svc_id: &str, parsed: Vec<ResourceState>, raw_lines: usize) -> (r:
        bool)
        ensures
            restores(
                old(self).deep_view(),
                final(self).deep_view(),
                r,
                svc_id@,
                parsed.deep_view(),
                raw_lines as nat,
            ),
    {
        if parsed.len() == 0 {
            return false;
        }
        let ghost before = self.deep_view().resources;
        let ghost rs = parsed.deep_view();
        let ghost all = parsed@;
        let mut bucket: ServiceResources = OrdMap::new();
        assert(bucket.deep_view() =~= Map::empty());
        assert(rs.take(0) =~= Seq::empty());
        for state in it: parsed.into_iter()
            invariant
                it.seq() == all,
                rs.len() == all.len(),
                forall|i: int| 0 <= i < all.len() ==> #[trigger] rs[i] == all[i].deep_view(),
                bucket.deep_view() == replayed(rs.take(it.index() as int)),
        {
            let key = (state.collection.clone(), state.id.clone());
            let ghost bv = bucket.deep_view();
            let ghost sv = state.deep_view();
            bucket.insert(key, state);
            proof {
                let i = it.index() as int;
                let t = rs.take(i + 1);
                assert(t.drop_last() =~= rs.take(i));
                assert(t.last() == rs[i]);
                assert(rs[i] == sv);
                assert(bucket.deep_view() =~= bv.insert((sv.collection, sv.id), sv));
            }
        }
        assert(rs.take(rs.len() as int) =~= rs);
        assert(bucket.deep_view().dom() =~= bucket@.dom());
        let compact = bucket.len() < raw_lines;
        let ghost bv = bucket.deep_view();
        self.by_service.insert(svc_id.to_owned(), bucket);
        assert(self.by_service.deep_view() =~= before.insert(svc_id@, bv));
        compact
    }

    /// The directory of the resource files, unless nothing is kept on disk.
    pub fn resources_dir(&self) -> (r: Option<String>)
        ensures
            r.deep_view() == dir_in(self.deep_view().data_dir),
    {
        if self.data_dir.as_str().is_empty() {
            None
        } else {
            let mut s = self.data_dir.clone();
            s.append("/resources");
            Some(s)
        }
    }

    /// The resource file of a service, unless nothing is kept on disk.
    pub fn resource_path(&self, service_id: &str) -> (r: Option<String>)
        ensures
            r.deep_view() == path_in(self.deep_view().data_dir, service_id@),
    {
        match self.resources_dir() {
            Some(dir) => {
                let mut s = dir;
                s.append("/");
                let ghost d = s@;
                s.append(service_id);
                s.append(".jsonl");
                assert(s@ =~= d + resource_file(service_id@));
                Some(s)
            },
            None => None,
        }
    }
}

/// The resources without one.
pub open spec fn without_resource(
    resources: ResourcesView,
    svc: Seq<char>,
    collection: Seq<char>,
    id: Seq<char>,
) -> ResourcesView {
    if resources.contains_key(svc) {
        resources.insert(svc, resources[svc].remove((collection, id)))
    } else {
        resources
    }
}

// ─── Files ───────────────────────────────────────────────────────────────────

/// The name of the resource file of a service.
pub open spec fn resource_file(svc: Seq<char>) -> Seq<char> {
    svc + ".jsonl"@
}

/// The service whose resource file has this name, if it is the name of one.
pub open spec fn resource_file_service(name: Seq<char>) -> Option<Seq<char>> {
    if text::ends_with(name, ".jsonl"@) {
        Some(name.take(name.len() - ".jsonl"@.len()))
    } else {
        None
    }
}

/// The service whose resource file has this name: `{service}.jsonl`.
pub fn service_of_resource_file(name: &str) -> (r: Option<String>)
    ensures
        r.deep_view() == resource_file_service(name@),
{
    proof {
        reveal_strlit(".jsonl");
        assert(".jsonl"@.len() == 6);
    }
    if has_suffix(name, ".jsonl") {
        let n = name.unicode_len();
        let svc = slice_text(name, 0, n - 6);
        assert(svc@ =~= name@.take(name@.len() - 6));
        Some(svc)
    } else {
        None
    }
}

/// The resource file of a service leads back to that service.
pub proof fn law_resource_file_round_trip(svc: Seq<char>)
    ensures
        resource_file_service(resource_file(svc)) == Some(svc),
{
    let name = resource_file(svc);
    let n = ".jsonl"@.len();
    assert(name.subrange(name.len() - n, name.len() as int) =~= ".jsonl"@);
    assert(name.take(name.len() - n) =~= svc);
}

/// The lines that hold more than white space.
pub open spec fn filled_lines(ls: Seq<Seq<char>>) -> Seq<Seq<char>>
    decreases ls.len(),
{
    if ls.len() == 0 {
        Seq::empty()
    } else {
        let before = filled_lines(ls.drop_last());
        if chars::trimmed(ls.last()).len() == 0 {
            before
        } else {
            before.push(ls.last())
        }
    }
}

/// The lines of a file that hold more than white space.
pub fn resource_lines(content: &str) -> (r: Vec<String>)
    ensures
        r.deep_view() == filled_lines(text::lines(content@)),
{
    let all = lines_of(content);
    let ghost ls = all.deep_view();
    let mut out: Vec<String> = Vec::new();
    let mut i: usize = 0;
    assert(ls.take(0) =~= Seq::empty());
    assert(out.deep_view() =~= Seq::empty());
    while i < all.len()
        invariant
            ls == all.deep_view(),
            i <= all@.len(),
            out.deep_view() == filled_lines(ls.take(i as int)),
        decreases all@.len() - i,
    {
        let ghost before = out.deep_view();
        let line = all[i].as_str();
        proof {
            let t = ls.take(i + 1);
            assert(t.drop_last() =~= ls.take(i as int));
            assert(t.last() == line@);
        }
        let t = trim(line);
        if !t.as_str().is_empty() {
            out.push(line.to_owned());
            assert(out.deep_view() =~= before.push(line@));
        }
        i += 1;
    }
    assert(ls.take(i as int) =~= ls);
    out
}

/// What was read from a resource file.
pub struct ResourceFile {
    pub name: String,
    /// The resources of its lines, in order; lines that hold none are left out.
    pub resources: Vec<ResourceState>,
    /// The number of its lines that hold more than white space.
    pub lines: usize,
}

#[verifier::ext_equal]
pub struct ResourceFileView {
    pub name: Seq<char>,
    pub resources: Seq<ResourceView>,
    pub lines: usize,
}

impl DeepView for ResourceFile {
    type V = ResourceFileView;

    open spec fn deep_view(&self) -> ResourceFileView {
        ResourceFileView {
            name: self.name@,
            resources: self.resources.deep_view(),
            lines: self.lines,
        }
    }
}

/// The service that a file gives resources to: that of its name, unless it holds none.
pub open spec fn file_service(f: ResourceFileView) -> Option<Seq<char>> {
    if f.resources.len() == 0 {
        None
    } else {
        resource_file_service(f.name)
    }
}

/// The resources after these files have been read: each file gives the resources of
/// its service anew.
pub open spec fn loaded(resources: ResourcesView, fs: Seq<ResourceFileView>) -> ResourcesView
    decreases fs.len(),
{
    if fs.len() == 0 {
        resources
    } else {
        let before = loaded(resources, fs.drop_last());
        match file_service(fs.last()) {
            Some(svc) => before.insert(svc, replayed(fs.last().resources)),
            None => before,
        }
    }
}

/// The names of the files that have more lines than resources.
pub open spec fn oversized(fs: Seq<ResourceFileView>) -> Seq<Seq<char>>
    decreases fs.len(),
{
    if fs.len() == 0 {
        Seq::empty()
    } else {
        let before = oversized(fs.drop_last());
        let f = fs.last();
        if file_service(f) is Some && replayed(f.resources).dom().len() < f.lines {
            before.push(f.name)
        } else {
            before
        }
    }
}

impl ResourceStore {
    /// Takes up the resource files, unless nothing is kept on disk. Returns the names of
    /// those that are to be rewritten with one line per resource.
    pub fn load_from_disk(&mut self, fs: Vec<ResourceFile>) -> (r: Vec<String>)
        ensures
            loads(
                old(self).deep_view(),
                final(self).deep_view(),
                r.deep_view(),
                fs.deep_view(),
            ),
    {
        let mut out: Vec<String> = Vec::new();
        if self.data_dir.as_str().is_empty() {
            return out;
        }
        let ghost before = self.deep_view();
        let ghost fv = fs.deep_view();
        let ghost all = fs@;
        assert(fv.take(0) =~= Seq::empty());
        assert(out.deep_view() =~= Seq::empty());
        for f in it: fs.into_iter()
            invariant
                it.seq() == all,
                fv.len() == all.len(),
                forall|i: int| 0 <= i < all.len() ==> #[trigger] fv[i] == all[i].deep_view(),
                out.deep_view() == oversized(fv.take(it.index() as int)),
                self.deep_view() == (StoreView {
                    resources: loaded(before.resources, fv.take(it.index() as int)),
                    ..before
                }),
        {
            let ghost v = f.deep_view();
            let ghost prev = out.deep_view();
            proof {
                let i = it.index() as int;
                let t = fv.take(i + 1);
                assert(t.drop_last() =~= fv.take(i));
                assert(t.last() == fv[i]);
                assert(fv[i] == v);
            }
            if let Some(svc) = service_of_resource_file(f.name.as_str()) {
                if self.restore(svc.as_str(), f.resources, f.lines) {
                    out.push(f.name);
                    assert(out.deep_view() =~= prev.push(v.name));
                }
            }
        }
        assert(fv.take(fv.len() as int) =~= fv);
        out
    }
}

// ─── Laws ────────────────────────────────────────────────────────────────────

/// What was captured is found under its service, collection and id, and every other
/// resource is what it was.
pub proof fn law_captured_is_found(
    resources: ResourcesView,
    svc: Seq<char>,
    collection: Seq<char>,
    id: Seq<char>,
    r: ResourceView,
    svc2: Seq<char>,
    collection2: Seq<char>,
    id2: Seq<char>,
)
    ensures
        resource_at(with_resource(resources, svc, collection, id, r), svc, collection, id) == Some(
            r,
        ),
        (svc2, collection2, id2) != (svc, collection, id) ==> resource_at(
            with_resource(resources, svc, collection, id, r),
            svc2,
            collection2,
            id2,
        ) == resource_at(resources, svc2, collection2, id2),
{
}

/// What was deleted is not found any more, and every other resource is what it was.
pub proof fn law_deleted_is_gone(
    resources: ResourcesView,
    svc: Seq<char>,
    collection: Seq<char>,
    id: Seq<char>,
    svc2: Seq<char>,
    collection2: Seq<char>,
    id2: Seq<char>,
)
    ensures
        resource_at(without_resource(resources, svc, collection, id), svc, collection, id) is None,
        (svc2, collection2, id2) != (svc, collection, id) ==> resource_at(
            without_resource(resources, svc, collection, id),
            svc2,
            collection2,
            id2,
        ) == resource_at(resources, svc2, collection2, id2),
{
}

/// A transition changes at most the status field of a body: every other member is
/// what it was.
pub proof fn law_only_status_changes(
    members: Seq<(Seq<char>, JsonModel)>,
    field: Seq<char>,
    state: Seq<char>,
    other: Seq<char>,
)
    requires
        ordmap::ascending::<String, JsonModel>(members),
        other != field,
    ensures
        with_status(JsonModel::Object(members), field, state) is Object,
        ({
            let after = ordmap::pairs_map(
                with_status(JsonModel::Object(members), field, state)->Object_0,
            );
            let before = ordmap::pairs_map(members);
            &&& after.contains_key(other) == before.contains_key(other)
            &&& before.contains_key(other) ==> after[other] == before[other]
            &&& before.contains_key(field) && before[field] is Str ==> after.contains_key(field)
                && after[field] == JsonModel::Str(state)
        }),
{
    let before = ordmap::pairs_map(members);
    ordmap::lemma_pairs_map::<String, JsonModel>(members);
    let after = before.insert(field, JsonModel::Str(state));
    ordmap::lemma_finite_map_has_pairs::<String, JsonModel>(after);
}

/// A machine's transitions keep a resource in states of the machine.
pub proof fn law_transitions_stay_known(
    registry: RegistryView,
    r: ResourceView,
    action: Seq<char>,
)
    requires
        r.statechart is Some,
        registry.contains_key(r.statechart->0),
        statechart::closed_machine(registry[r.statechart->0]),
    ensures
        resource_next(Some(registry), r, action) matches Some(next)
            ==> registry[r.statechart->0].states.contains_key(next),
{
    if resource_next(Some(registry), r, action) is Some {
        let m = registry[r.statechart->0];
        assert(m.states[r.current_state->0].contains_key(action));
    }
}

/// A second restore from the same file changes nothing.
pub proof fn law_restore_idempotent(
    resources: ResourcesView,
    svc: Seq<char>,
    rs: Seq<ResourceView>,
)
    ensures
        resources.insert(svc, replayed(rs)).insert(svc, replayed(rs)) == resources.insert(
            svc,
            replayed(rs),
        ),
{
    assert(resources.insert(svc, replayed(rs)).insert(svc, replayed(rs)) =~= resources.insert(
        svc,
        replayed(rs),
    ));
}

/// Of the lines of a file about one resource the last counts.
pub proof fn law_last_line_wins(rs: Seq<ResourceView>, i: int)
    requires
        0 <= i < rs.len(),
        forall|j: int|
            i < j < rs.len() ==> ((#[trigger] rs[j]).collection, rs[j].id) != (
                rs[i].collection,
                rs[i].id,
            ),
    ensures
        replayed(rs).contains_key((rs[i].collection, rs[i].id)),
        replayed(rs)[(rs[i].collection, rs[i].id)] == rs[i],
    decreases rs.len(),
{
    let init = rs.drop_last();
    if i < rs.len() - 1 {
        assert((rs[rs.len() - 1].collection, rs[rs.len() - 1].id) != (
            rs[i].collection,
            rs[i].id,
        ));
        assert forall|j: int| i < j < init.len() implies ((#[trigger] init[j]).collection, init[j].id)
            != (init[i].collection, init[i].id) by {
            assert(init[j] == rs[j]);
        }
        law_last_line_wins(init, i);
    }
}

/// Every resource stands under its own collection and id.
pub open spec fn bucket_keyed(bucket: ServiceResourcesView) -> bool {
    forall|k: (Seq<char>, Seq<char>)| #[trigger]
        bucket.contains_key(k) ==> (bucket[k].collection, bucket[k].id) == k
}

/// What is restored from a file stands under its own collection and id.
pub proof fn law_replayed_is_keyed(rs: Seq<ResourceView>)
    ensures
        bucket_keyed(replayed(rs)),
        replayed(rs).dom().finite(),
    decreases rs.len(),
{
    if rs.len() > 0 {
        law_replayed_is_keyed(rs.drop_last());
    }
}

/// A rewritten file holds as many lines as there are resources, and restores to the
/// same resources.
pub proof fn law_compaction_keeps_resources(bucket: ServiceResourcesView)
    requires
        bucket.dom().finite(),
        bucket_keyed(bucket),
    ensures
        replayed(listed(bucket)) == bucket,
        listed(bucket).len() == bucket.dom().len(),
{
    let ps = ordmap::sorted_pairs::<(String, String), ResourceView>(bucket);
    ordmap::lemma_finite_map_has_pairs::<(String, String), ResourceView>(bucket);
    ordmap::lemma_pairs_map::<(String, String), ResourceView>(ps);
    assert forall|i: int| 0 <= i < ps.len() implies ((#[trigger] ps[i]).1.collection, ps[i].1.id)
        == ps[i].0 by {
        assert(bucket.contains_key(ps[i].0));
    }
    lemma_replay_pairs(ps);
}

proof fn lemma_replay_pairs(ps: Seq<((Seq<char>, Seq<char>), ResourceView)>)
    requires
        ordmap::ascending::<(String, String), ResourceView>(ps),
        forall|i: int|
            0 <= i < ps.len() ==> ((#[trigger] ps[i]).1.collection, ps[i].1.id) == ps[i].0,
    ensures
        replayed(ps.map_values(|p: ((Seq<char>, Seq<char>), ResourceView)| p.1))
            == ordmap::pairs_map(ps),
    decreases ps.len(),
{
    let vs = ps.map_values(|p: ((Seq<char>, Seq<char>), ResourceView)| p.1);
    if ps.len() == 0 {
        assert(replayed(vs) =~= ordmap::pairs_map(ps));
    } else {
        let init = ps.drop_last();
        ordmap::lemma_drop_last::<(String, String), ResourceView>(ps);
        ordmap::lemma_pairs_map::<(String, String), ResourceView>(ps);
        assert forall|i: int| 0 <= i < init.len() implies (
            (#[trigger] init[i]).1.collection,
            init[i].1.id,
        ) == init[i].0 by {
            assert(init[i] == ps[i]);
        }
        lemma_replay_pairs(init);
        assert(vs.drop_last() =~= init.map_values(
            |p: ((Seq<char>, Seq<char>), ResourceView)| p.1,
        ));
        let last = ps[ps.len() - 1];
        assert(vs.last() == last.1);
        assert(ordmap::pairs_map(ps).contains_key(last.0));
        assert(ordmap::pairs_map(ps)[last.0] == last.1);
        assert(replayed(vs) =~= ordmap::pairs_map(ps));
    }
}

proof fn lemma_loaded_over(resources: ResourcesView, fs: Seq<ResourceFileView>)
    ensures
        loaded(resources, fs) == resources.union_prefer_right(loaded(Map::empty(), fs)),
    decreases fs.len(),
{
    if fs.len() == 0 {
        assert(resources.union_prefer_right(Map::empty()) =~= resources);
    } else {
        let init = fs.drop_last();
        lemma_loaded_over(resources, init);
        assert(loaded(resources, fs) =~= resources.union_prefer_right(loaded(Map::empty(), fs)));
    }
}

/// Reading the same files twice gives what reading them once gives.
pub proof fn law_load_is_idempotent(resources: ResourcesView, fs: Seq<ResourceFileView>)
    ensures
        loaded(loaded(resources, fs), fs) == loaded(resources, fs),
{
    let once = loaded(resources, fs);
    lemma_loaded_over(resources, fs);
    lemma_loaded_over(once, fs);
    assert(loaded(once, fs) =~= once);
}

// ─── Laws of persistence ─────────────────────────────────────────────────────

/// The resources after these lines have been written, each with its service: of two
/// lines about one resource the later counts.
pub open spec fn written(ws: Seq<(Seq<char>, ResourceView)>) -> ResourcesView
    decreases ws.len(),
{
    if ws.len() == 0 {
        Map::empty()
    } else {
        let (svc, r) = ws.last();
        with_resource(written(ws.drop_last()), svc, r.collection, r.id, r)
    }
}

/// The lines that were written to the file of a service, in order.
pub open spec fn lines_for(ws: Seq<(Seq<char>, ResourceView)>, svc: Seq<char>) -> Seq<ResourceView>
    decreases ws.len(),
{
    if ws.len() == 0 {
        Seq::empty()
    } else if ws.last().0 == svc {
        lines_for(ws.drop_last(), svc).push(ws.last().1)
    } else {
        lines_for(ws.drop_last(), svc)
    }
}

/// What was written for a service is what its file restores to.
proof fn lemma_written_service(ws: Seq<(Seq<char>, ResourceView)>, svc: Seq<char>)
    ensures
        written(ws).contains_key(svc) == (lines_for(ws, svc).len() > 0),
        lines_for(ws, svc).len() > 0 ==> written(ws)[svc] == replayed(lines_for(ws, svc)),
    decreases ws.len(),
{
    if ws.len() > 0 {
        let init = ws.drop_last();
        lemma_written_service(init, svc);
        if ws.last().0 == svc {
            let before = lines_for(init, svc);
            assert(lines_for(ws, svc).drop_last() =~= before);
            if before.len() == 0 {
                assert(replayed(before) =~= Map::empty());
            }
        }
    }
}

/// What was written stands under its own collection and id.
proof fn lemma_written_is_keyed(ws: Seq<(Seq<char>, ResourceView)>, svc: Seq<char>)
    requires
        written(ws).contains_key(svc),
    ensures
        bucket_keyed(written(ws)[svc]),
{
    lemma_written_service(ws, svc);
    law_replayed_is_keyed(lines_for(ws, svc));
}

/// A capture is kept with one more line: the resource as it is found afterwards.
pub proof fn law_capture_is_one_line(
    ws: Seq<(Seq<char>, ResourceView)>,
    before: StoreView,
    after: StoreView,
    r: Result<String, ResourceStoreError>,
    service_id: Seq<char>,
    collection: Seq<char>,
    body: JsonModel,
    hint: Option<Seq<char>>,
    content_type: Option<Seq<char>>,
    status: u16,
    now: Timestamp,
)
    requires
        before.resources == written(ws),
        captures(
            before,
            after,
            r,
            service_id,
            collection,
            body,
            hint,
            content_type,
            status,
            now,
        ),
        r is Ok,
    ensures
        ({
            let found = resource_at(after.resources, service_id, collection, r->Ok_0@);
            &&& found is Some
            &&& after.resources == written(ws.push((service_id, found->0)))
        }),
{
    let found = resource_at(after.resources, service_id, collection, r->Ok_0@);
    assert(ws.push((service_id, found->0)).drop_last() =~= ws);
}

/// A transition is kept with one more line: the resource as it is found afterwards.
pub proof fn law_transition_is_one_line(
    ws: Seq<(Seq<char>, ResourceView)>,
    before: StoreView,
    after: StoreView,
    r: Option<String>,
    service_id: Seq<char>,
    collection: Seq<char>,
    id: Seq<char>,
    action: Seq<char>,
    now: Timestamp,
)
    requires
        before.resources == written(ws),
        moves(before, after, r, service_id, collection, id, action, now),
        r is Some,
    ensures
        ({
            let found = resource_at(after.resources, service_id, collection, id);
            &&& found is Some
            &&& after.resources == written(ws.push((service_id, found->0)))
        }),
{
    let found = resource_at(after.resources, service_id, collection, id);
    let was = resource_at(before.resources, service_id, collection, id);
    assert(was is Some);
    lemma_written_is_keyed(ws, service_id);
    assert(written(ws)[service_id].contains_key((collection, id)));
    assert(ws.push((service_id, found->0)).drop_last() =~= ws);
}

/// Reading the files that were written gives the resources again: what was captured
/// is found under its service, collection and id, and there are as many resources.
/// There is a file for every service that was written to, named after it.
pub proof fn law_reload_restores(
    ws: Seq<(Seq<char>, ResourceView)>,
    svcs: Seq<Seq<char>>,
    fs: Seq<ResourceFileView>,
)
    requires
        fs.len() == svcs.len(),
        forall|i: int|
            0 <= i < fs.len() ==> (#[trigger] fs[i]).name == resource_file(svcs[i])
                && fs[i].resources == lines_for(ws, svcs[i]),
        forall|i: int| 0 <= i < ws.len() ==> svcs.contains((#[trigger] ws[i]).0),
    ensures
        loaded(Map::empty(), fs) == written(ws),
        store_count(loaded(Map::empty(), fs)) == store_count(written(ws)),
{
    lemma_loaded_files(ws, svcs, fs);
    let l = loaded(Map::empty(), fs);
    let w = written(ws);
    assert forall|svc: Seq<char>| #[trigger] l.contains_key(svc) == w.contains_key(svc) by {
        lemma_written_service(ws, svc);
        if w.contains_key(svc) {
            lemma_line_has_service(ws, svc);
        }
    }
    assert forall|svc: Seq<char>| #[trigger] l.contains_key(svc) implies l[svc] == w[svc] by {
        lemma_written_service(ws, svc);
    }
    assert(l =~= w);
}

proof fn lemma_line_has_service(ws: Seq<(Seq<char>, ResourceView)>, svc: Seq<char>)
    requires
        lines_for(ws, svc).len() > 0,
    ensures
        exists|i: int| 0 <= i < ws.len() && (#[trigger] ws[i]).0 == svc,
    decreases ws.len(),
{
    if ws.last().0 == svc {
        assert(ws[ws.len() - 1].0 == svc);
    } else {
        let init = ws.drop_last();
        lemma_line_has_service(init, svc);
        let i = choose|i: int| 0 <= i < init.len() && (#[trigger] init[i]).0 == svc;
        assert(ws[i].0 == svc);
    }
}

proof fn lemma_loaded_files(
    ws: Seq<(Seq<char>, ResourceView)>,
    svcs: Seq<Seq<char>>,
    fs: Seq<ResourceFileView>,
)
    requires
        fs.len() == svcs.len(),
        forall|i: int|
            0 <= i < fs.len() ==> (#[trigger] fs[i]).name == resource_file(svcs[i])
                && fs[i].resources == lines_for(ws, svcs[i]),
    ensures
        forall|svc: Seq<char>| #[trigger]
            loaded(Map::empty(), fs).contains_key(svc) == (svcs.contains(svc) && lines_for(
                ws,
                svc,
            ).len() > 0),
        forall|svc: Seq<char>| #[trigger]
            loaded(Map::empty(), fs).contains_key(svc) ==> loaded(Map::empty(), fs)[svc]
                == replayed(lines_for(ws, svc)),
    decreases fs.len(),
{
    if fs.len() > 0 {
        let init = fs.drop_last();
        let names = svcs.drop_last();
        let last = svcs[svcs.len() - 1];
        assert forall|i: int| 0 <= i < init.len() implies (#[trigger] init[i]).name
            == resource_file(names[i]) && init[i].resources == lines_for(ws, names[i]) by {
            assert(init[i] == fs[i]);
            assert(names[i] == svcs[i]);
        }
        lemma_loaded_files(ws, names, init);
        assert(fs[fs.len() - 1].name == resource_file(last));
        law_resource_file_round_trip(last);
        assert forall|svc: Seq<char>| #[trigger] svcs.contains(svc) == (names.contains(svc) || svc
            == last) by {
            if svcs.contains(svc) {
                let i = svcs.index_of(svc);
                if i < names.len() {
                    assert(names[i] == svc);
                }
            }
            if names.contains(svc) {
                let i = names.index_of(svc);
                assert(svcs[i] == svc);
            }
            if svc == last {
                assert(svcs[svcs.len() - 1] == svc);
            }
        }
        let before = loaded(Map::empty(), init);
        let after = loaded(Map::empty(), fs);
        assert forall|svc: Seq<char>| #[trigger] after.contains_key(svc) == (svcs.contains(svc)
            && lines_for(ws, svc).len() > 0) by {
            assert(before.contains_key(svc) == (names.contains(svc) && lines_for(ws, svc).len()
                > 0));
        }
        assert forall|svc: Seq<char>| #[trigger] after.contains_key(svc) implies after[svc]
            == replayed(lines_for(ws, svc)) by {
            if svc != last || !(lines_for(ws, svc).len() > 0) {
                assert(before.contains_key(svc));
            }
        }
    }
}

/// A file that was rewritten is not rewritten again.
pub proof fn law_compaction_settles(bucket: ServiceResourcesView, f: ResourceFileView)
    requires
        bucket.dom().finite(),
        bucket_keyed(bucket),
        f.resources == listed(bucket),
        f.lines == f.resources.len(),
    ensures
        oversized(seq![f]) == Seq::<Seq<char>>::empty(),
{
    law_compaction_keeps_resources(bucket);
    let fs = seq![f];
    assert(fs.drop_last() =~= Seq::empty());
    assert(fs.last() == f);
    assert(oversized(fs.drop_last()) =~= Seq::empty());
}

// ─── Laws of capture and transition ──────────────────────────────────────────

/// A deletion with this outcome: whether there was a resource, and the store without it.
pub open spec fn drops(
    before: StoreView,
    after: StoreView,
    r: bool,
    service_id: Seq<char>,
    collection: Seq<char>,
    id: Seq<char>,
) -> bool {
    &&& r == (resource_at(before.resources, service_id, collection, id) is Some)
    &&& after == (StoreView {
        resources: without_resource(before.resources, service_id, collection, id),
        ..before
    })
}

/// A deleted resource is gone, every other one stays, and it is told whether there was
/// one.
pub proof fn law_deletion_drops_one(
    before: StoreView,
    after: StoreView,
    r: bool,
    service_id: Seq<char>,
    collection: Seq<char>,
    id: Seq<char>,
)
    requires
        drops(before, after, r, service_id, collection, id),
    ensures
        r <==> before.resources.contains_key(service_id)
            && before.resources[service_id].contains_key((collection, id)),
        resource_at(after.resources, service_id, collection, id) is None,
        forall|svc: Seq<char>, c: Seq<char>, i: Seq<char>|
            (svc != service_id || c != collection || i != id) ==> (#[trigger] resource_at(
                after.resources,
                svc,
                c,
                i,
            )) == resource_at(before.resources, svc, c, i),
        after.registry == before.registry,
        after.data_dir == before.data_dir,
{
}

/// A restore from a file with this outcome: the resources of the service are those of the
/// file, and whether the file is to be rewritten; a file without resources changes
/// nothing.
pub open spec fn restores(
    before: StoreView,
    after: StoreView,
    r: bool,
    svc: Seq<char>,
    rs: Seq<ResourceView>,
    raw_lines: nat,
) -> bool {
    let bucket = replayed(rs);
    if rs.len() == 0 {
        !r && after == before
    } else {
        r == (bucket.dom().len() < raw_lines) && after == (StoreView {
            resources: before.resources.insert(svc, bucket),
            ..before
        })
    }
}

/// After a restore the service has the last line of each resource in its file, and only
/// these; other services have what they had. A file is to be rewritten exactly if it had
/// more lines than it left resources.
pub proof fn law_restore_takes_over_file(
    before: StoreView,
    after: StoreView,
    r: bool,
    svc: Seq<char>,
    rs: Seq<ResourceView>,
    raw_lines: nat,
    i: int,
    other: Seq<char>,
)
    requires
        restores(before, after, r, svc, rs, raw_lines),
        0 <= i < rs.len(),
        forall|j: int|
            i < j < rs.len() ==> ((#[trigger] rs[j]).collection, rs[j].id) != (
                rs[i].collection,
                rs[i].id,
            ),
        other != svc,
    ensures
        resource_at(after.resources, svc, rs[i].collection, rs[i].id) == Some(rs[i]),
        forall|c: Seq<char>, id: Seq<char>|
            (#[trigger] resource_at(after.resources, svc, c, id)) is Some ==> exists|j: int|
                0 <= j < rs.len() && (#[trigger] rs[j]).collection == c && rs[j].id == id,
        after.resources.contains_key(other) == before.resources.contains_key(other),
        before.resources.contains_key(other) ==> after.resources[other] == before.resources[other],
        r <==> after.resources[svc].dom().len() < raw_lines,
{
    law_last_line_wins(rs, i);
    lemma_replayed_has(rs);
}

proof fn lemma_replayed_has(rs: Seq<ResourceView>)
    ensures
        forall|k: (Seq<char>, Seq<char>)| #[trigger]
            replayed(rs).contains_key(k) ==> exists|j: int|
                0 <= j < rs.len() && (#[trigger] rs[j]).collection == k.0 && rs[j].id == k.1,
    decreases rs.len(),
{
    if rs.len() > 0 {
        let init = rs.drop_last();
        lemma_replayed_has(init);
        assert forall|k: (Seq<char>, Seq<char>)| #[trigger] replayed(rs).contains_key(
            k,
        ) implies exists|j: int|
            0 <= j < rs.len() && (#[trigger] rs[j]).collection == k.0 && rs[j].id == k.1 by {
            if k == (rs.last().collection, rs.last().id) {
                assert(rs[rs.len() - 1].collection == k.0);
            } else {
                assert(replayed(init).contains_key(k));
                let j = choose|j: int|
                    0 <= j < init.len() && (#[trigger] init[j]).collection == k.0 && init[j].id
                        == k.1;
                assert(rs[j].collection == k.0);
            }
        }
    }
}

/// Taking up the resource files with this outcome: nothing happens without a directory to
/// keep them in, else their resources are those of the files, and the files that are to
/// be rewritten are named.
pub open spec fn loads(
    before: StoreView,
    after: StoreView,
    r: Seq<Seq<char>>,
    fs: Seq<ResourceFileView>,
) -> bool {
    if before.data_dir.len() == 0 {
        r.len() == 0 && after == before
    } else {
        r == oversized(fs) && after == (StoreView {
            resources: loaded(before.resources, fs),
            ..before
        })
    }
}

/// After the files were taken up the service of the last file of its name has the last
/// line of each resource in it. Without a directory nothing is taken up.
pub proof fn law_loaded_file_is_taken_up(
    before: StoreView,
    after: StoreView,
    r: Seq<Seq<char>>,
    fs: Seq<ResourceFileView>,
    svc: Seq<char>,
    k: int,
    i: int,
)
    requires
        loads(before, after, r, fs),
        0 <= k < fs.len(),
        fs[k].name == svc + ".jsonl"@,
        0 <= i < fs[k].resources.len(),
        forall|j: int| k < j < fs.len() ==> (#[trigger] fs[j]).name != fs[k].name,
        forall|j: int|
            i < j < fs[k].resources.len() ==> ((#[trigger] fs[k].resources[j]).collection,
                fs[k].resources[j].id,
            ) != (fs[k].resources[i].collection, fs[k].resources[i].id),
    ensures
        before.data_dir.len() > 0 ==> resource_at(
            after.resources,
            svc,
            fs[k].resources[i].collection,
            fs[k].resources[i].id,
        ) == Some(fs[k].resources[i]),
        before.data_dir.len() == 0 ==> after == before && r.len() == 0,
{
    if before.data_dir.len() > 0 {
        lemma_loaded_last(before.resources, fs, svc, k);
        law_last_line_wins(fs[k].resources, i);
    }
}

proof fn lemma_loaded_last(
    resources: ResourcesView,
    fs: Seq<ResourceFileView>,
    svc: Seq<char>,
    k: int,
)
    requires
        0 <= k < fs.len(),
        fs[k].name == resource_file(svc),
        fs[k].resources.len() > 0,
        forall|j: int| k < j < fs.len() ==> (#[trigger] fs[j]).name != fs[k].name,
    ensures
        loaded(resources, fs).contains_key(svc),
        loaded(resources, fs)[svc] == replayed(fs[k].resources),
    decreases fs.len(),
{
    law_resource_file_round_trip(svc);
    if k < fs.len() - 1 {
        let init = fs.drop_last();
        let last = fs[fs.len() - 1];
        assert(last.name != fs[k].name);
        assert forall|j: int| k < j < init.len() implies (#[trigger] init[j]).name
            != init[k].name by {
            assert(init[j] == fs[j]);
        }
        lemma_loaded_last(resources, init, svc, k);
        if file_service(last) == Some(svc) {
            reveal_strlit(".jsonl");
            assert(".jsonl"@.len() == 6);
            let n = last.name;
            assert(n.subrange(n.len() - 6, n.len() as int) == ".jsonl"@);
            assert(n =~= n.take(n.len() - 6) + n.subrange(n.len() - 6, n.len() as int));
        }
    }
}

/// A hint that names no member that gives an id is as good as none.
pub proof fn law_idle_hint(members: Seq<(Seq<char>, JsonModel)>, collection: Seq<char>, hint: Seq<
    char,
>)
    requires
        !ordmap::pairs_map(members).contains_key(hint) || id_text(
            ordmap::pairs_map(members)[hint],
        ) is None,
    ensures
        candidate_id(members, id_candidates(collection, Some(hint))) == candidate_id(
            members,
            id_candidates(collection, None),
        ),
{
    let cs = id_candidates(collection, Some(hint));
    assert(cs[0] == hint);
    assert(cs.drop_first() =~= id_candidates(collection, None));
}

/// What gives an id: a text that is not empty, and a number, by its text; nothing else.
pub proof fn law_what_gives_an_id(m: JsonModel)
    ensures
        match m {
            JsonModel::Str(s) => if s.len() > 0 {
                id_text(m) == Some(s)
            } else {
                id_text(m) is None
            },
            JsonModel::Number(n) => id_text(m) == Some(n),
            _ => id_text(m) is None,
        },
{
}

/// An object with a member `id` that is a text or a number is captured under it, a text
/// that is empty apart, unless a hint names another member that gives an id.
pub proof fn law_id_member_is_the_id(
    members: Seq<(Seq<char>, JsonModel)>,
    collection: Seq<char>,
)
    requires
        ordmap::pairs_map(members).contains_key("id"@),
    ensures
        match ordmap::pairs_map(members)["id"@] {
            JsonModel::Str(s) => s.len() > 0 ==> id_in(
                JsonModel::Object(members),
                collection,
                None,
            ) == Some(s),
            JsonModel::Number(n) => id_in(JsonModel::Object(members), collection, None) == Some(n),
            _ => true,
        },
{
    let cs = id_candidates(collection, None);
    assert(cs[0] == "id"@);
    reveal_with_fuel(candidate_id, 2);
}

/// Without a member `id` the member `_id` gives the id, and without that the member that
/// is named like one item of the collection: `order_id` in `orders`.
pub proof fn law_other_id_members(
    members: Seq<(Seq<char>, JsonModel)>,
    item: Seq<char>,
    s: Seq<char>,
)
    requires
        !ordmap::pairs_map(members).contains_key("id"@),
        s.len() > 0,
    ensures
        ordmap::pairs_map(members).contains_key("_id"@) && ordmap::pairs_map(members)["_id"@]
            == JsonModel::Str(s) ==> id_in(JsonModel::Object(members), item.push('s'), None)
            == Some(s),
        !ordmap::pairs_map(members).contains_key("_id"@) && ordmap::pairs_map(
            members,
        ).contains_key(item + "_id"@) && ordmap::pairs_map(members)[item + "_id"@]
            == JsonModel::Str(s) ==> id_in(JsonModel::Object(members), item.push('s'), None)
            == Some(s),
{
    let collection = item.push('s');
    assert(collection.drop_last() =~= item);
    let cs = id_candidates(collection, None);
    assert(cs[0] == "id"@ && cs[1] == "_id"@ && cs[2] == item + "_id"@);
    let t = cs.drop_first();
    assert(t[0] == "_id"@);
    let u = t.drop_first();
    assert(u[0] == item + "_id"@);
    reveal_with_fuel(candidate_id, 4);
}

/// An object without an id of its own has that of its first member that holds one.
pub proof fn law_inner_id_counts(
    members: Seq<(Seq<char>, JsonModel)>,
    candidates: Seq<Seq<char>>,
    depth: nat,
    k: int,
)
    requires
        depth <= 3,
        candidate_id(members, candidates) is None,
        0 <= k < members.len(),
        walked_id(members[k].1, candidates, depth + 1) is Some,
        forall|j: int|
            0 <= j < k ==> walked_id((#[trigger] members[j]).1, candidates, depth + 1) is None,
    ensures
        walked_id(JsonModel::Object(members), candidates, depth) == walked_id(
            members[k].1,
            candidates,
            depth + 1,
        ),
{
    lemma_members_id(members, candidates, depth + 1, members.len(), k);
}

proof fn lemma_members_id(
    members: Seq<(Seq<char>, JsonModel)>,
    candidates: Seq<Seq<char>>,
    depth: nat,
    n: nat,
    k: int,
)
    requires
        0 <= k < members.len(),
        n <= members.len(),
        walked_id(members[k].1, candidates, depth) is Some,
        forall|j: int|
            0 <= j < k ==> walked_id((#[trigger] members[j]).1, candidates, depth) is None,
    ensures
        n > k ==> members_id(members, candidates, depth, n) == walked_id(
            members[k].1,
            candidates,
            depth,
        ),
        n <= k ==> members_id(members, candidates, depth, n) is None,
    decreases n,
{
    if n > 0 {
        lemma_members_id(members, candidates, depth, (n - 1) as nat, k);
        if n - 1 < k {
            assert(walked_id(members[n - 1].1, candidates, depth) is None);
        }
    }
}

/// The id of the first item of an array that holds one counts.
pub proof fn law_first_item_with_id_counts(
    items: Seq<JsonModel>,
    candidates: Seq<Seq<char>>,
    depth: nat,
    k: int,
)
    requires
        depth <= 3,
        0 <= k < items.len(),
        walked_id(items[k], candidates, depth + 1) is Some,
        forall|j: int| 0 <= j < k ==> walked_id(#[trigger] items[j], candidates, depth + 1) is None,
    ensures
        walked_id(JsonModel::Array(items), candidates, depth) == walked_id(
            items[k],
            candidates,
            depth + 1,
        ),
{
    lemma_items_id(items, candidates, depth + 1, items.len(), k);
}

proof fn lemma_items_id(
    items: Seq<JsonModel>,
    candidates: Seq<Seq<char>>,
    depth: nat,
    n: nat,
    k: int,
)
    requires
        0 <= k < items.len(),
        n <= items.len(),
        walked_id(items[k], candidates, depth) is Some,
        forall|j: int| 0 <= j < k ==> walked_id(#[trigger] items[j], candidates, depth) is None,
    ensures
        n > k ==> items_id(items, candidates, depth, n) == walked_id(items[k], candidates, depth),
        n <= k ==> items_id(items, candidates, depth, n) is None,
    decreases n,
{
    if n > 0 {
        lemma_items_id(items, candidates, depth, (n - 1) as nat, k);
        if n - 1 < k {
            assert(walked_id(items[n - 1], candidates, depth) is None);
        }
    }
}

/// Further than three levels below the top no id is looked for, and a text or a number
/// at the top is none.
pub proof fn law_id_depth_is_limited(m: JsonModel, candidates: Seq<Seq<char>>, depth: nat)
    ensures
        depth > 3 ==> walked_id(m, candidates, depth) is None,
        !(m is Object) && !(m is Array) ==> walked_id(m, candidates, depth) is None,
{
}

/// A captured resource is found under its id with the body that was captured, its status
/// and its content type, JSON without one, both times the time of the capture, and in the
/// initial state of the machine that its collection follows. Nothing is captured of a
/// body without an id.
pub proof fn law_capture_keeps_response(
    before: StoreView,
    after: StoreView,
    r: Result<String, ResourceStoreError>,
    service_id: Seq<char>,
    collection: Seq<char>,
    body: JsonModel,
    hint: Option<Seq<char>>,
    content_type: Option<Seq<char>>,
    status: u16,
    now: Timestamp,
)
    requires
        captures(
            before,
            after,
            r,
            service_id,
            collection,
            body,
            hint,
            content_type,
            status,
            now,
        ),
    ensures
        r is Ok <==> id_in(body, collection, hint) is Some,
        r is Err ==> after == before,
        r is Ok ==> {
            let found = resource_at(after.resources, service_id, collection, r->Ok_0@);
            &&& id_in(body, collection, hint) == Some(r->Ok_0@)
            &&& found is Some
            &&& found->0.collection == collection
            &&& found->0.id == r->Ok_0@
            &&& found->0.body == body
            &&& found->0.status == status
            &&& content_type is Some ==> found->0.content_type == content_type->0
            &&& content_type is None ==> found->0.content_type == "application/json"@
            &&& found->0.created_at == now
            &&& found->0.updated_at == now
            &&& found->0.statechart == bound_chart(before.registry, collection)
            &&& found->0.statechart is Some ==> found->0.current_state == Some(
                before.registry->0[found->0.statechart->0].initial,
            )
            &&& found->0.statechart is None ==> found->0.current_state is None
            &&& after.registry == before.registry
            &&& after.data_dir == before.data_dir
        },
        forall|svc: Seq<char>, c: Seq<char>, id: Seq<char>|
            (svc != service_id || c != collection || r is Err || id != r->Ok_0@) ==> (
            #[trigger] resource_at(after.resources, svc, c, id)) == resource_at(
                before.resources,
                svc,
                c,
                id,
            ),
{
}

/// A collection follows the machine of its name, else the one of its name without a final
/// `s`, else none.
pub proof fn law_collection_follows_machine(registry: RegistryView, item: Seq<char>)
    ensures
        registry.contains_key(item) ==> bound_chart(Some(registry), item) == Some(item),
        !registry.contains_key(item.push('s')) && registry.contains_key(item) ==> bound_chart(
            Some(registry),
            item.push('s'),
        ) == Some(item),
        !registry.contains_key(item.push('s')) && !registry.contains_key(item) ==> bound_chart(
            Some(registry),
            item.push('s'),
        ) is None,
        bound_chart(None, item) is None,
{
    assert(item.push('s').drop_last() =~= item);
}

/// An action moves a resource along the machine that it follows: its state is the one
/// that the machine leads to, which is also what is returned and what the text in the
/// status field of its body says, and its time is the time of the move. A resource that
/// does not follow a machine, or has no such transition, stays as it is. No other
/// resource is touched.
pub proof fn law_transition_moves_resource(
    before: StoreView,
    after: StoreView,
    r: Option<String>,
    service_id: Seq<char>,
    collection: Seq<char>,
    id: Seq<char>,
    action: Seq<char>,
    now: Timestamp,
    registry: RegistryView,
    chart: Seq<char>,
    current: Seq<char>,
)
    requires
        moves(before, after, r, service_id, collection, id, action, now),
        before.registry == Some(registry),
        registry.contains_key(chart),
        resource_at(before.resources, service_id, collection, id) is Some,
        resource_at(before.resources, service_id, collection, id)->0.statechart == Some(chart),
        resource_at(before.resources, service_id, collection, id)->0.current_state == Some(current),
    ensures
        ({
            let was = resource_at(before.resources, service_id, collection, id)->0;
            let now_is = resource_at(after.resources, service_id, collection, id);
            let m = registry[chart];
            if m.states.contains_key(current) && m.states[current].contains_key(action) {
                let next = m.states[current][action];
                &&& r is Some && r->0@ == next
                &&& now_is is Some
                &&& now_is->0.current_state == Some(next)
                &&& now_is->0.updated_at == now
                &&& now_is->0.created_at == was.created_at
                &&& now_is->0.collection == was.collection
                &&& now_is->0.id == was.id
                &&& now_is->0.statechart == was.statechart
                &&& now_is->0.status == was.status
                &&& now_is->0.content_type == was.content_type
                &&& now_is->0.body == with_status(was.body, m.status_field, next)
            } else {
                r is None && after == before
            }
        }),
        forall|svc: Seq<char>, c: Seq<char>, i: Seq<char>|
            (svc != service_id || c != collection || i != id) ==> (#[trigger] resource_at(
                after.resources,
                svc,
                c,
                i,
            )) == resource_at(before.resources, svc, c, i),
{
}

/// A body that is no object, or has no text in its status field, stays as it is.
pub proof fn law_body_without_status_stays(body: JsonModel, field: Seq<char>, state: Seq<char>)
    requires
        body is Object ==> !ordmap::pairs_map(body->Object_0).contains_key(field)
            || !(ordmap::pairs_map(body->Object_0)[field] is Str),
    ensures
        with_status(body, field, state) == body,
{
}

/// The list of a service has each of its resources and nothing else, by ascending
/// collection and id.
pub proof fn law_list_has_all(bucket: ServiceResourcesView, k: (Seq<char>, Seq<char>))
    requires
        bucket.dom().finite(),
        bucket_keyed(bucket),
    ensures
        bucket.contains_key(k) ==> listed(bucket).contains(bucket[k]),
        forall|i: int|
            0 <= i < listed(bucket).len() ==> {
                let r = #[trigger] listed(bucket)[i];
                bucket.contains_key((r.collection, r.id)) && bucket[(r.collection, r.id)] == r
            },
        forall|i: int, j: int|
            #![trigger listed(bucket)[i], listed(bucket)[j]]
            0 <= i < j < listed(bucket).len() ==> {
                let a = listed(bucket)[i];
                let b = listed(bucket)[j];
                text::text_lt(a.collection, b.collection) || (a.collection == b.collection
                    && text::text_lt(a.id, b.id))
            },
{
    let ps = ordmap::sorted_pairs::<(String, String), ResourceView>(bucket);
    ordmap::lemma_finite_map_has_pairs::<(String, String), ResourceView>(bucket);
    ordmap::lemma_pairs_map::<(String, String), ResourceView>(ps);
    let ls = listed(bucket);
    assert forall|i: int| 0 <= i < ps.len() implies (ps[i].1.collection, ps[i].1.id) == (
    #[trigger] ps[i]).0 && ls[i] == ps[i].1 && bucket.contains_key(ps[i].0) && bucket[ps[i].0]
        == ps[i].1 by {
        assert(bucket.contains_key(ps[i].0));
    }
    if bucket.contains_key(k) {
        assert(ordmap::has_key(ps, k));
        let i = ordmap::key_index(ps, k);
        assert(ps[i].0 == k);
        assert(ls[i] == bucket[k]);
    }
    assert forall|i: int| 0 <= i < ls.len() implies ({
        let r = #[trigger] ls[i];
        bucket.contains_key((r.collection, r.id)) && bucket[(r.collection, r.id)] == r
    }) by {
        assert(ps[i].1 == ls[i]);
    }
    assert forall|i: int, j: int|
        #![trigger ls[i], ls[j]]
        0 <= i < j < ls.len() implies ({
        let a = ls[i];
        let b = ls[j];
        text::text_lt(a.collection, b.collection) || (a.collection == b.collection
            && text::text_lt(a.id, b.id))
    }) by {
        assert(ps[i].1 == ls[i] && ps[j].1 == ls[j]);
        assert(<(String, String) as ordmap::OrdKey>::key_lt(ps[i].0, ps[j].0));
    }
}

/// A file is to be rewritten exactly if it is the resource file of a service, holds a
/// resource, and has more lines than it leaves resources.
pub proof fn law_files_to_rewrite(fs: Seq<ResourceFileView>, name: Seq<char>)
    ensures
        oversized(fs).contains(name) <==> exists|i: int|
            0 <= i < fs.len() && (#[trigger] fs[i]).name == name && fs[i].resources.len() > 0
                && resource_file_service(name) is Some && replayed(fs[i].resources).dom().len()
                < fs[i].lines,
    decreases fs.len(),
{
    if fs.len() > 0 {
        let init = fs.drop_last();
        let before = oversized(init);
        let all = oversized(fs);
        let last = fs[fs.len() - 1];
        law_files_to_rewrite(init, name);
        if before.contains(name) {
            assert(all[before.index_of(name)] == name);
            let i = choose|i: int|
                0 <= i < init.len() && (#[trigger] init[i]).name == name && init[i].resources.len()
                    > 0 && resource_file_service(name) is Some && replayed(
                    init[i].resources,
                ).dom().len() < init[i].lines;
            assert(fs[i].name == name);
        } else if all.contains(name) {
            let i = all.index_of(name);
            if i < before.len() {
                assert(before[i] == name);
            }
            assert(last.name == name);
        }
        if exists|i: int|
            0 <= i < fs.len() && (#[trigger] fs[i]).name == name && fs[i].resources.len() > 0
                && resource_file_service(name) is Some && replayed(fs[i].resources).dom().len()
                < fs[i].lines {
            let i = choose|i: int|
                0 <= i < fs.len() && (#[trigger] fs[i]).name == name && fs[i].resources.len() > 0
                    && resource_file_service(name) is Some && replayed(
                    fs[i].resources,
                ).dom().len() < fs[i].lines;
            if i < init.len() {
                assert(init[i].name == name);
            } else {
                assert(all[all.len() - 1] == name);
            }
        }
    }
}

/// The lines of a resource file are all of its lines but those of nothing but white
/// space, in their order.
pub proof fn law_blank_lines_are_skipped(ls: Seq<Seq<char>>)
    ensures
        filled_lines(ls) == ls.filter(|l: Seq<char>| chars::trimmed(l).len() > 0),
    decreases ls.len(),
{
    reveal(Seq::filter);
    if ls.len() > 0 {
        law_blank_lines_are_skipped(ls.drop_last());
    }
}

/// The directory of the resource files in a data directory, unless that is empty.
pub open spec fn dir_in(data_dir: Seq<char>) -> Option<Seq<char>> {
    if data_dir.len() == 0 {
        None
    } else {
        Some(data_dir + "/resources"@)
    }
}

/// The resource file of a service in a data directory, unless that is empty.
pub open spec fn path_in(data_dir: Seq<char>, svc: Seq<char>) -> Option<Seq<char>> {
    if data_dir.len() == 0 {
        None
    } else {
        Some(data_dir + "/resources"@ + "/"@ + resource_file(svc))
    }
}

/// Resource files stand in the directory `resources`, each named after its service;
/// without a data directory there are none.
pub proof fn law_where_resources_are_kept(data_dir: Seq<char>, svc: Seq<char>)
    ensures
        data_dir.len() > 0 ==> dir_in(data_dir) == Some(data_dir + "/resources"@),
        data_dir.len() > 0 ==> path_in(data_dir, svc) == Some(
            data_dir + "/resources"@ + "/"@ + (svc + ".jsonl"@),
        ),
        data_dir.len() == 0 ==> dir_in(data_dir) is None && path_in(data_dir, svc) is None,
{
}

} // verus!
