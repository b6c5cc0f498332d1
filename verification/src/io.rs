//! The mock library: per-file segments of recorded entries, their lookup and
//! their reload.
use crate::dup::Dup;
use crate::files;
use crate::files::service_of_mock_file;
use crate::ordmap;
use crate::ordmap::OrdMap;
use crate::types::MockEntry;
use crate::types::MockEntryView;
use crate::types::GLOBAL_TENANT;
use std::sync::Arc;
use vstd::multiset::Multiset;
use vstd::prelude::*;

verus! {

/// The tenant of an entry.
pub type Tenant = String;

/// The entries of a service by method, URI and tenant.
pub type ServiceMocks = OrdMap<(String, String, Tenant), MockEntry>;

/// What the entries of a service stand for.
pub type ServiceView = Map<(Seq<char>, Seq<char>, Seq<char>), MockEntryView>;

/// What a segment stands for: the entries of each service.
pub type SegmentView = Map<Seq<char>, ServiceView>;

/// What a library stands for: its segments by name.
pub type LibraryView = Map<Seq<char>, SegmentView>;

/// The entries of one mock file, by service.
pub struct MockSegment {
    pub services: OrdMap<String, ServiceMocks>,
}

/// The mock library: the segments by the base name of their file. The segment
/// `_global` also holds the entries created at runtime.
pub struct MockLibrary {
    pub segments: OrdMap<String, Arc<MockSegment>>,
}

impl DeepView for MockSegment {
    type V = SegmentView;

    open spec fn deep_view(&self) -> SegmentView {
        self.services.deep_view()
    }
}

impl DeepView for MockLibrary {
    type V = LibraryView;

    open spec fn deep_view(&self) -> LibraryView {
        self.segments.deep_view()
    }
}

impl Dup for MockSegment {
    fn dup(&self) -> (r: Self) {
        MockSegment { services: self.services.dup() }
    }
}

/// `Arc::clone`: another pointer to the same segment.
#[verifier::external_body]
fn share(segment: &Arc<MockSegment>) -> (r: Arc<MockSegment>)
    ensures
        r == *segment,
{
    Arc::clone(segment)
}

impl Dup for Arc<MockSegment> {
    fn dup(&self) -> (r: Self) {
        share(self)
    }
}

impl Dup for MockLibrary {
    fn dup(&self) -> (r: Self) {
        MockLibrary { segments: self.segments.dup() }
    }
}

// ─── Keys ────────────────────────────────────────────────────────────────────

/// The key of an entry within its service.
pub open spec fn entry_key(e: MockEntryView) -> (Seq<char>, Seq<char>, Seq<char>) {
    (e.request.method, e.request.uri, e.tenant)
}

/// The service of an entry: the global one if it names none.
pub open spec fn entry_service(e: MockEntryView) -> Seq<char> {
    match e.service_id {
        Some(s) => s,
        None => GLOBAL_TENANT@,
    }
}

fn key_of(entry: &MockEntry) -> (r: (String, String, Tenant))
    ensures
        r@ == entry_key(entry.deep_view()),
{
    (entry.request.method.clone(), entry.request.uri.clone(), entry.tenant.clone())
}

fn service_of(entry: &MockEntry) -> (r: String)
    ensures
        r@ == entry_service(entry.deep_view()),
{
    match &entry.service_id {
        Some(s) => s.clone(),
        None => GLOBAL_TENANT.to_owned(),
    }
}

// ─── Building ────────────────────────────────────────────────────────────────

/// The entries put one after the other into `mocks`: of equal keys the last one
/// counts.
pub open spec fn with_entries(mocks: ServiceView, es: Seq<MockEntryView>) -> ServiceView
    decreases es.len(),
{
    if es.len() == 0 {
        mocks
    } else {
        with_entries(mocks, es.drop_last()).insert(entry_key(es.last()), es.last())
    }
}

/// The segment of the service `svc` with the entries of its file. Nothing if there
/// are none.
pub open spec fn segment_of(svc: Seq<char>, es: Seq<MockEntryView>) -> Option<SegmentView> {
    if es.len() == 0 {
        None
    } else {
        Some(Map::<Seq<char>, ServiceView>::empty().insert(svc, with_entries(Map::empty(), es)))
    }
}

/// The segment of one mock file, from the entries on its lines. Nothing if no line
/// holds an entry.
pub fn build_segment(svc_id: &str, entries: Vec<MockEntry>) -> (r: Option<MockSegment>)
    ensures
        r.deep_view() == segment_of(svc_id@, entries.deep_view()),
{
    let ghost es = entries.deep_view();
    if entries.len() == 0 {
        return None;
    }
    let mut svc_mocks: ServiceMocks = OrdMap::new();
    assert(svc_mocks.deep_view() =~= Map::empty());
    assert(es.take(0) =~= Seq::empty());
    let ghost all = entries@;
    for entry in it: entries.into_iter()
        invariant
            it.seq() == all,
            es.len() == all.len(),
            forall|i: int| 0 <= i < all.len() ==> #[trigger] es[i] == all[i].deep_view(),
            svc_mocks.deep_view() == with_entries(Map::empty(), es.take(it.index() as int)),
    {
        let key = key_of(&entry);
        let ghost before = svc_mocks.deep_view();
        let ghost ev = entry.deep_view();
        svc_mocks.insert(key, entry);
        proof {
            let i = it.index() as int;
            let t = es.take(i + 1);
            assert(t.drop_last() =~= es.take(i));
            assert(t.last() == es[i]);
            assert(es[i] == ev);
            assert(svc_mocks.deep_view() =~= before.insert(entry_key(ev), ev));
        }
    }
    assert(es.take(es.len() as int) =~= es);
    let mut services: OrdMap<String, ServiceMocks> = OrdMap::new();
    services.insert(svc_id.to_owned(), svc_mocks);
    let r = MockSegment { services };
    assert(r.deep_view() =~= segment_of(svc_id@, es)->0);
    Some(r)
}

/// A segment with an entry put into the service `svc`.
pub open spec fn segment_with(seg: SegmentView, svc: Seq<char>, e: MockEntryView) -> SegmentView {
    let mocks = if seg.contains_key(svc) {
        seg[svc]
    } else {
        Map::empty()
    };
    seg.insert(svc, mocks.insert(entry_key(e), e))
}

/// A library with an entry put into the service `svc` of the segment `name`.
pub open spec fn library_with(
    lib: LibraryView,
    name: Seq<char>,
    svc: Seq<char>,
    e: MockEntryView,
) -> LibraryView {
    let seg = if lib.contains_key(name) {
        lib[name]
    } else {
        Map::empty()
    };
    lib.insert(name, segment_with(seg, svc, e))
}

/// A segment with the entries put into their services, one after the other.
pub open spec fn segment_from(es: Seq<MockEntryView>) -> SegmentView
    decreases es.len(),
{
    if es.len() == 0 {
        Map::empty()
    } else {
        segment_with(segment_from(es.drop_last()), entry_service(es.last()), es.last())
    }
}

impl MockSegment {
    /// A segment without entries.
    pub fn new() -> (r: Self)
        ensures
            r.deep_view() == Map::<Seq<char>, ServiceView>::empty(),
    {
        let r = MockSegment { services: OrdMap::new() };
        assert(r.deep_view() =~= Map::empty());
        r
    }

    /// Puts an entry into the service `svc`, in place of one with the same method,
    /// URI and tenant.
    pub fn insert(&mut self, svc: &str, entry: MockEntry)
        ensures
            final(self).deep_view() == segment_with(
                old(self).deep_view(),
                svc@,
                entry.deep_view(),
            ),
    {
        let ghost before = self.deep_view();
        let ghost ev = entry.deep_view();
        let svc_key = svc.to_owned();
        let mut mocks: ServiceMocks = match self.services.remove(&svc_key) {
            Some(m) => m,
            None => OrdMap::new(),
        };
        let ghost mv = mocks.deep_view();
        assert(mv =~= if before.contains_key(svc@) {
            before[svc@]
        } else {
            Map::empty()
        });
        mocks.insert(key_of(&entry), entry);
        assert(mocks.deep_view() =~= mv.insert(entry_key(ev), ev));
        self.services.insert(svc_key, mocks);
        assert(self.deep_view() =~= segment_with(before, svc@, ev));
    }
}

/// A library of one segment, `_global`, with the entries put into their services.
pub fn library_from_entries(entries: Vec<MockEntry>) -> (r: MockLibrary)
    ensures
        r.deep_view() == Map::<Seq<char>, SegmentView>::empty().insert(
            GLOBAL_TENANT@,
            segment_from(entries.deep_view()),
        ),
{
    let ghost es = entries.deep_view();
    let ghost all = entries@;
    let mut segment = MockSegment::new();
    assert(es.take(0) =~= Seq::empty());
    for entry in it: entries.into_iter()
        invariant
            it.seq() == all,
            es.len() == all.len(),
            forall|i: int| 0 <= i < all.len() ==> #[trigger] es[i] == all[i].deep_view(),
            segment.deep_view() == segment_from(es.take(it.index() as int)),
    {
        let svc = service_of(&entry);
        let ghost ev = entry.deep_view();
        segment.insert(svc.as_str(), entry);
        proof {
            let i = it.index() as int;
            let t = es.take(i + 1);
            assert(t.drop_last() =~= es.take(i));
            assert(t.last() == es[i]);
            assert(es[i] == ev);
        }
    }
    assert(es.take(es.len() as int) =~= es);
    let mut library = MockLibrary::new();
    library.segments.insert(GLOBAL_TENANT.to_owned(), Arc::new(segment));
    assert(library.deep_view() =~= Map::<Seq<char>, SegmentView>::empty().insert(
        GLOBAL_TENANT@,
        segment_from(es),
    ));
    library
}

// ─── Lookup ──────────────────────────────────────────────────────────────────

/// The segment has an entry of the service under the key.
pub open spec fn segment_has(
    seg: SegmentView,
    svc: Seq<char>,
    key: (Seq<char>, Seq<char>, Seq<char>),
) -> bool {
    seg.contains_key(svc) && seg[svc].contains_key(key)
}

/// The entry of the service under the key in the first segment that has one.
pub open spec fn first_entry(
    segs: Seq<(Seq<char>, SegmentView)>,
    svc: Seq<char>,
    key: (Seq<char>, Seq<char>, Seq<char>),
) -> Option<MockEntryView>
    decreases segs.len(),
{
    if segs.len() == 0 {
        None
    } else if segment_has(segs[0].1, svc, key) {
        Some(segs[0].1[svc][key])
    } else {
        first_entry(segs.drop_first(), svc, key)
    }
}

/// The entry of the service for this method, URI and tenant: that in the segment of
/// the service itself, else that in the first segment by name that has one.
pub open spec fn library_entry(
    lib: LibraryView,
    svc: Seq<char>,
    method: Seq<char>,
    uri: Seq<char>,
    tenant: Seq<char>,
) -> Option<MockEntryView> {
    let key = (method, uri, tenant);
    if lib.contains_key(svc) && segment_has(lib[svc], svc, key) {
        Some(lib[svc][svc][key])
    } else {
        first_entry(ordmap::sorted_pairs::<String, SegmentView>(lib), svc, key)
    }
}

/// The entries under a tenant, or all, in key order.
pub open spec fn tenant_entries(
    ps: Seq<((Seq<char>, Seq<char>, Seq<char>), MockEntryView)>,
    tenant: Option<Seq<char>>,
) -> Seq<MockEntryView>
    decreases ps.len(),
{
    if ps.len() == 0 {
        Seq::empty()
    } else {
        let before = tenant_entries(ps.drop_last(), tenant);
        let ((_, _, t), e) = ps.last();
        if tenant is None || tenant == Some(t) {
            before.push(e)
        } else {
            before
        }
    }
}

/// The entries of a service under a tenant, or all.
pub open spec fn service_entries(mocks: ServiceView, tenant: Option<Seq<char>>) -> Seq<
    MockEntryView,
> {
    tenant_entries(
        ordmap::sorted_pairs::<(String, String, String), MockEntryView>(mocks),
        tenant,
    )
}

/// The entries of the service in each of the segments, one after the other.
pub open spec fn entries_in(
    segs: Seq<(Seq<char>, SegmentView)>,
    svc: Seq<char>,
    tenant: Option<Seq<char>>,
) -> Seq<MockEntryView>
    decreases segs.len(),
{
    if segs.len() == 0 {
        Seq::empty()
    } else {
        let before = entries_in(segs.drop_last(), svc, tenant);
        let seg = segs.last().1;
        if seg.contains_key(svc) {
            before + service_entries(seg[svc], tenant)
        } else {
            before
        }
    }
}

/// The entries of the services, one after the other.
pub open spec fn services_entries(
    services: Seq<(Seq<char>, ServiceView)>,
    tenant: Option<Seq<char>>,
) -> Seq<MockEntryView>
    decreases services.len(),
{
    if services.len() == 0 {
        Seq::empty()
    } else {
        services_entries(services.drop_last(), tenant) + service_entries(
            services.last().1,
            tenant,
        )
    }
}

/// The entries of all services in each of the segments, one after the other.
pub open spec fn all_entries_in(
    segs: Seq<(Seq<char>, SegmentView)>,
    tenant: Option<Seq<char>>,
) -> Seq<MockEntryView>
    decreases segs.len(),
{
    if segs.len() == 0 {
        Seq::empty()
    } else {
        all_entries_in(segs.drop_last(), tenant) + services_entries(
            ordmap::sorted_pairs::<String, ServiceView>(segs.last().1),
            tenant,
        )
    }
}

/// The number of entries of the services together.
pub open spec fn services_count(services: Seq<(Seq<char>, ServiceView)>) -> nat
    decreases services.len(),
{
    if services.len() == 0 {
        0
    } else {
        services_count(services.drop_last()) + services.last().1.dom().len()
    }
}

/// The number of entries of the segments together.
pub open spec fn segments_count(segs: Seq<(Seq<char>, SegmentView)>) -> nat
    decreases segs.len(),
{
    if segs.len() == 0 {
        0
    } else {
        segments_count(segs.drop_last()) + services_count(
            ordmap::sorted_pairs::<String, ServiceView>(segs.last().1),
        )
    }
}

/// The number of entries of a library.
pub open spec fn library_count(lib: LibraryView) -> nat {
    segments_count(ordmap::sorted_pairs::<String, SegmentView>(lib))
}

/// The services that a library has entries of.
pub open spec fn library_services(lib: LibraryView) -> Set<Seq<char>> {
    Set::new(
        |svc: Seq<char>|
            exists|name: Seq<char>| #[trigger] lib.contains_key(name) && lib[name].contains_key(svc),
    )
}

proof fn lemma_services_count_grows(services: Seq<(Seq<char>, ServiceView)>, n: int)
    requires
        0 <= n <= services.len(),
    ensures
        services_count(services.take(n)) <= services_count(services),
    decreases services.len() - n,
{
    if n < services.len() {
        lemma_services_count_grows(services, n + 1);
        let t = services.take(n + 1);
        assert(t.drop_last() =~= services.take(n));
    } else {
        assert(services.take(n) =~= services);
    }
}

proof fn lemma_segments_count_grows(segs: Seq<(Seq<char>, SegmentView)>, n: int)
    requires
        0 <= n <= segs.len(),
    ensures
        segments_count(segs.take(n)) <= segments_count(segs),
    decreases segs.len() - n,
{
    if n < segs.len() {
        lemma_segments_count_grows(segs, n + 1);
        let t = segs.take(n + 1);
        assert(t.drop_last() =~= segs.take(n));
    } else {
        assert(segs.take(n) =~= segs);
    }
}

fn push_service_entries(svc: &ServiceMocks, tenant: Option<&str>, out: &mut Vec<MockEntry>)
    ensures
        final(out).deep_view() == old(out).deep_view() + service_entries(
            svc.deep_view(),
            tenant.deep_view(),
        ),
{
    let n = svc.len();
    let ghost start = out.deep_view();
    let ghost ps = ordmap::deep_pairs(svc.pairs());
    let ghost tv = tenant.deep_view();
    proof {
        ordmap::lemma_deep_pairs::<(String, String, String), MockEntry>(svc.pairs());
        assert(ps.take(0) =~= Seq::empty());
        assert(start + tenant_entries(ps.take(0), tv) =~= start);
    }
    let mut i: usize = 0;
    while i < n
        invariant
            n == svc.pairs().len(),
            i <= n,
            tv == tenant.deep_view(),
            ps == ordmap::deep_pairs(svc.pairs()),
            out.deep_view() == start + tenant_entries(ps.take(i as int), tv),
        decreases n - i,
    {
        let key = svc.key_at(i);
        let wanted = match tenant {
            Some(want) => crate::text::same_text(key.2.as_str(), want),
            None => true,
        };
        let ghost before = out.deep_view();
        proof {
            let t = ps.take(i + 1);
            assert(t.drop_last() =~= ps.take(i as int));
            assert(t.last() == ps[i as int]);
            assert(key@ == ps[i as int].0);
            assert(key.2@ == ps[i as int].0.2);
        }
        if wanted {
            let e = svc.value_at(i).dup();
            out.push(e);
            assert(out.deep_view() =~= before.push(e.deep_view()));
        }
        i += 1;
        assert(out.deep_view() =~= start + tenant_entries(ps.take(i as int), tv));
    }
    assert(ps.take(i as int) =~= ps);
}

impl MockLibrary {
    /// A library without segments.
    pub fn new() -> (r: Self)
        ensures
            r.deep_view() == Map::<Seq<char>, SegmentView>::empty(),
    {
        let r = MockLibrary { segments: OrdMap::new() };
        assert(r.deep_view() =~= Map::empty());
        r
    }

    /// The number of entries. Their number has to fit in a `usize`.
    pub fn total_count(&self) -> (r: usize)
        requires
            library_count(self.deep_view()) <= usize::MAX,
        ensures
            r == library_count(self.deep_view()),
    {
        let n = self.segments.len();
        let ghost ss = ordmap::deep_pairs(self.segments.pairs());
        proof {
            ordmap::lemma_deep_pairs::<String, Arc<MockSegment>>(self.segments.pairs());
            assert(ss.take(0) =~= Seq::empty());
        }
        let mut count: usize = 0;
        let mut i: usize = 0;
        while i < n
            invariant
                n == self.segments.pairs().len(),
                i <= n,
                ss == ordmap::deep_pairs(self.segments.pairs()),
                segments_count(ss) <= usize::MAX,
                count == segments_count(ss.take(i as int)),
            decreases n - i,
        {
            let seg = self.segments.value_at(i);
            let m = seg.services.len();
            let ghost vs = ordmap::deep_pairs(seg.services.pairs());
            let ghost base = count as nat;
            proof {
                ordmap::lemma_deep_pairs::<String, ServiceMocks>(seg.services.pairs());
                let t = ss.take(i + 1);
                assert(t.drop_last() =~= ss.take(i as int));
                assert(t.last() == ss[i as int]);
                assert(ss[i as int].1 == seg.deep_view());
                lemma_segments_count_grows(ss, i + 1);
                assert(vs.take(0) =~= Seq::empty());
            }
            let mut j: usize = 0;
            while j < m
                invariant
                    m == seg.services.pairs().len(),
                    j <= m,
                    vs == ordmap::deep_pairs(seg.services.pairs()),
                    base + services_count(vs) <= usize::MAX,
                    count == base + services_count(vs.take(j as int)),
                decreases m - j,
            {
                let svc = seg.services.value_at(j);
                let k = svc.len();
                proof {
                    let t = vs.take(j + 1);
                    assert(t.drop_last() =~= vs.take(j as int));
                    assert(t.last() == vs[j as int]);
                    assert(vs[j as int].1 == svc.deep_view());
                    assert(svc.deep_view().dom() =~= svc@.dom());
                    lemma_services_count_grows(vs, j + 1);
                }
                count += k;
                j += 1;
            }
            assert(vs.take(j as int) =~= vs);
            i += 1;
        }
        assert(ss.take(i as int) =~= ss);
        count
    }

    /// The number of services that have entries in some segment.
    pub fn service_count(&self) -> (r: usize)
        ensures
            r == library_services(self.deep_view()).len(),
            library_services(self.deep_view()).finite(),
    {
        let n = self.segments.len();
        let ghost lib = self.deep_view();
        let ghost ps = self.segments.pairs();
        let mut seen: OrdMap<String, u64> = OrdMap::new();
        let mut i: usize = 0;
        proof {
            ordmap::lemma_pairs_map::<String, Arc<MockSegment>>(ps);
        }
        while i < n
            invariant
                n == ps.len(),
                i <= n,
                ps == self.segments.pairs(),
                forall|svc: Seq<char>| #[trigger]
                    seen@.contains_key(svc) <==> exists|a: int|
                        0 <= a < i && (#[trigger] ps[a]).1.deep_view().contains_key(svc),
            decreases n - i,
        {
            let seg = self.segments.value_at(i);
            let m = seg.services.len();
            let ghost vs = seg.services.pairs();
            proof {
                ordmap::lemma_pairs_map::<String, ServiceMocks>(vs);
            }
            let ghost before = seen@;
            let mut j: usize = 0;
            while j < m
                invariant
                    m == vs.len(),
                    j <= m,
                    vs == seg.services.pairs(),
                    forall|svc: Seq<char>| #[trigger]
                        seen@.contains_key(svc) <==> (before.contains_key(svc) || exists|b: int|
                            0 <= b < j && (#[trigger] vs[b]).0 == svc),
                decreases m - j,
            {
                let ghost prev = seen@;
                seen.insert(seg.services.key_at(j).clone(), 1);
                j += 1;
                assert forall|svc: Seq<char>| #[trigger]
                    seen@.contains_key(svc) <==> (before.contains_key(svc) || exists|b: int|
                        0 <= b < j && (#[trigger] vs[b]).0 == svc) by {
                    if seen@.contains_key(svc) && svc == vs[j - 1].0 {
                        assert(vs[j - 1].0 == svc);
                    }
                    if exists|b: int| 0 <= b < j && (#[trigger] vs[b]).0 == svc {
                        let b = choose|b: int| 0 <= b < j && (#[trigger] vs[b]).0 == svc;
                        assert(b < j - 1 ==> prev.contains_key(vs[b].0));
                    }
                }
            }
            assert forall|svc: Seq<char>| #[trigger]
                seen@.contains_key(svc) <==> exists|a: int|
                    0 <= a < i + 1 && (#[trigger] ps[a]).1.deep_view().contains_key(svc) by {
                assert(ps[i as int].1.deep_view().contains_key(svc) == seg.services@.contains_key(
                    svc,
                ));
                if seen@.contains_key(svc) && !before.contains_key(svc) {
                    let b = choose|b: int| 0 <= b < m && (#[trigger] vs[b]).0 == svc;
                    assert(seg.services@.contains_key(vs[b].0));
                    assert(ps[i as int].1.deep_view().contains_key(svc));
                }
                if exists|a: int|
                    0 <= a < i + 1 && (#[trigger] ps[a]).1.deep_view().contains_key(svc) {
                    let a = choose|a: int|
                        0 <= a < i + 1 && (#[trigger] ps[a]).1.deep_view().contains_key(svc);
                    if a == i {
                        let b = ordmap::key_index(vs, svc);
                        assert(vs[b].0 == svc);
                    } else {
                        assert(before.contains_key(svc));
                    }
                }
            }
            i += 1;
        }
        proof {
            assert forall|svc: Seq<char>| #[trigger]
                seen@.contains_key(svc) == library_services(lib).contains(svc) by {
                if seen@.contains_key(svc) {
                    let a = choose|a: int|
                        0 <= a < n && (#[trigger] ps[a]).1.deep_view().contains_key(svc);
                    assert(self.segments@.contains_key(ps[a].0));
                    assert(lib.contains_key(ps[a].0));
                    assert(lib[ps[a].0] == ps[a].1.deep_view());
                }
                if library_services(lib).contains(svc) {
                    let name = choose|name: Seq<char>| #[trigger]
                        lib.contains_key(name) && lib[name].contains_key(svc);
                    let a = ordmap::key_index(ps, name);
                    assert(ordmap::has_key(ps, name));
                    assert(ps[a].0 == name);
                    assert(ps[a].1.deep_view().contains_key(svc));
                }
            }
            assert(seen@.dom() =~= library_services(lib));
        }
        seen.len()
    }

    /// The entry of a service for this method, URI and tenant. The segment of the
    /// service itself counts before the others. Entries of other tenants are never
    /// found.
    pub fn find_exact(&self, service_id: &str, method: &str, uri: &str, tenant: &str) -> (r: Option<
        MockEntry,
    >)
        ensures
            r.deep_view() == library_entry(
                self.deep_view(),
                service_id@,
                method@,
                uri@,
                tenant@,
            ),
    {
        let key = (method.to_owned(), uri.to_owned(), tenant.to_owned());
        let svc_key = service_id.to_owned();
        let n = self.segments.len();
        let ghost ss = ordmap::deep_pairs(self.segments.pairs());
        let ghost kv = (method@, uri@, tenant@);
        proof {
            ordmap::lemma_deep_pairs::<String, Arc<MockSegment>>(self.segments.pairs());
            assert(ss.skip(0) =~= ss);
        }
        if let Some(own) = self.segments.get(&svc_key) {
            assert(self.deep_view()[service_id@] == own.deep_view());
            if let Some(svc) = own.services.get(&svc_key) {
                if let Some(entry) = svc.get(&key) {
                    return Some(entry.dup());
                }
            }
        }
        let mut i: usize = 0;
        while i < n
            invariant
                n == self.segments.pairs().len(),
                i <= n,
                !(self.deep_view().contains_key(service_id@) && segment_has(
                    self.deep_view()[service_id@],
                    service_id@,
                    kv,
                )),
                ss == ordmap::deep_pairs(self.segments.pairs()),
                kv == (method@, uri@, tenant@),
                key@ == kv,
                svc_key@ == service_id@,
                first_entry(ss, service_id@, kv) == first_entry(
                    ss.skip(i as int),
                    service_id@,
                    kv,
                ),
                ss == ordmap::sorted_pairs::<String, SegmentView>(self.deep_view()),
            decreases n - i,
        {
            let seg = self.segments.value_at(i);
            proof {
                let t = ss.skip(i as int);
                assert(t[0] == ss[i as int]);
                assert(t[0].1 == seg.deep_view());
                assert(t.drop_first() =~= ss.skip(i + 1));
            }
            if let Some(svc) = seg.services.get(&svc_key) {
                if let Some(entry) = svc.get(&key) {
                    return Some(entry.dup());
                }
            }
            i += 1;
        }
        None
    }

    /// The entries of a service in every segment, of one tenant or of all.
    pub fn entries_for_service(&self, service_id: &str, tenant: Option<&str>) -> (r: Vec<MockEntry>)
        ensures
            r.deep_view() == entries_in(
                ordmap::sorted_pairs::<String, SegmentView>(self.deep_view()),
                service_id@,
                tenant.deep_view(),
            ),
    {
        let svc_key = service_id.to_owned();
        let n = self.segments.len();
        let ghost ss = ordmap::deep_pairs(self.segments.pairs());
        let ghost tv = tenant.deep_view();
        let mut out: Vec<MockEntry> = Vec::new();
        proof {
            ordmap::lemma_deep_pairs::<String, Arc<MockSegment>>(self.segments.pairs());
            assert(ss.take(0) =~= Seq::empty());
            assert(out.deep_view() =~= Seq::empty());
        }
        let mut i: usize = 0;
        while i < n
            invariant
                n == self.segments.pairs().len(),
                i <= n,
                ss == ordmap::deep_pairs(self.segments.pairs()),
                tv == tenant.deep_view(),
                svc_key@ == service_id@,
                out.deep_view() == entries_in(ss.take(i as int), service_id@, tv),
            decreases n - i,
        {
            let seg = self.segments.value_at(i);
            proof {
                let t = ss.take(i + 1);
                assert(t.drop_last() =~= ss.take(i as int));
                assert(t.last() == ss[i as int]);
                assert(t.last().1 == seg.deep_view());
            }
            if let Some(svc) = seg.services.get(&svc_key) {
                push_service_entries(svc, tenant, &mut out);
            }
            i += 1;
        }
        assert(ss.take(i as int) =~= ss);
        out
    }

    /// The entries of all services in every segment, of one tenant or of all.
    pub fn all_entries(&self, tenant: Option<&str>) -> (r: Vec<MockEntry>)
        ensures
            r.deep_view() == all_entries_in(
                ordmap::sorted_pairs::<String, SegmentView>(self.deep_view()),
                tenant.deep_view(),
            ),
    {
        let n = self.segments.len();
        let ghost ss = ordmap::deep_pairs(self.segments.pairs());
        let ghost tv = tenant.deep_view();
        let mut out: Vec<MockEntry> = Vec::new();
        proof {
            ordmap::lemma_deep_pairs::<String, Arc<MockSegment>>(self.segments.pairs());
            assert(ss.take(0) =~= Seq::empty());
            assert(out.deep_view() =~= Seq::empty());
        }
        let mut i: usize = 0;
        while i < n
            invariant
                n == self.segments.pairs().len(),
                i <= n,
                ss == ordmap::deep_pairs(self.segments.pairs()),
                tv == tenant.deep_view(),
                out.deep_view() == all_entries_in(ss.take(i as int), tv),
            decreases n - i,
        {
            let seg = self.segments.value_at(i);
            let m = seg.services.len();
            let ghost vs = ordmap::deep_pairs(seg.services.pairs());
            let ghost base = out.deep_view();
            proof {
                ordmap::lemma_deep_pairs::<String, ServiceMocks>(seg.services.pairs());
                let t = ss.take(i + 1);
                assert(t.drop_last() =~= ss.take(i as int));
                assert(t.last() == ss[i as int]);
                assert(t.last().1 == seg.deep_view());
                assert(vs.take(0) =~= Seq::empty());
                assert(base + services_entries(vs.take(0), tv) =~= base);
            }
            let mut j: usize = 0;
            while j < m
                invariant
                    m == seg.services.pairs().len(),
                    j <= m,
                    vs == ordmap::deep_pairs(seg.services.pairs()),
                    tv == tenant.deep_view(),
                    out.deep_view() == base + services_entries(vs.take(j as int), tv),
                decreases m - j,
            {
                let svc = seg.services.value_at(j);
                proof {
                    let t = vs.take(j + 1);
                    assert(t.drop_last() =~= vs.take(j as int));
                    assert(t.last() == vs[j as int]);
                    assert(t.last().1 == svc.deep_view());
                }
                push_service_entries(svc, tenant, &mut out);
                j += 1;
                assert(out.deep_view() =~= base + services_entries(vs.take(j as int), tv));
            }
            assert(vs.take(j as int) =~= vs);
            i += 1;
        }
        assert(ss.take(i as int) =~= ss);
        out
    }
}

// ─── Changes ─────────────────────────────────────────────────────────────────

impl MockLibrary {
    /// Puts an entry into the service `svc` of the segment `name`, in place of one
    /// with the same method, URI and tenant. The other segments stay as they are.
    pub fn insert_into(&mut self, name: &str, svc: &str, entry: MockEntry)
        ensures
            final(self).deep_view() == library_with(
                old(self).deep_view(),
                name@,
                svc@,
                entry.deep_view(),
            ),
    {
        let ghost before = self.deep_view();
        let ghost ev = entry.deep_view();
        let key = name.to_owned();
        let mut segment = match self.segments.get(&key) {
            Some(s) => (**s).dup(),
            None => MockSegment::new(),
        };
        segment.insert(svc, entry);
        self.segments.insert(key, Arc::new(segment));
        assert(self.deep_view() =~= library_with(before, name@, svc@, ev));
    }

    /// Records an entry for the service `svc`: it goes into the segment of that
    /// name.
    pub fn record(&mut self, svc: &str, entry: MockEntry)
        ensures
            final(self).deep_view() == library_with(
                old(self).deep_view(),
                svc@,
                svc@,
                entry.deep_view(),
            ),
    {
        self.insert_into(svc, svc, entry);
    }

    /// Takes up an entry that was created at runtime: it goes into the segment
    /// `_global`, under the service it names, or `_global` if it names none.
    pub fn create(&mut self, entry: MockEntry)
        ensures
            final(self).deep_view() == with_created(old(self).deep_view(), entry.deep_view()),
    {
        let svc = service_of(&entry);
        self.insert_into(GLOBAL_TENANT, svc.as_str(), entry);
    }

    /// Takes up a rebuilt segment, or drops the segment if there is none any more.
    /// The other segments stay as they are.
    pub fn replace_segment(&mut self, name: &str, segment: Option<MockSegment>)
        ensures
            final(self).deep_view() == (match segment {
                Some(s) => old(self).deep_view().insert(name@, s.deep_view()),
                None => old(self).deep_view().remove(name@),
            }),
    {
        let ghost before = self.deep_view();
        let key = name.to_owned();
        match segment {
            Some(s) => {
                let ghost sv = s.deep_view();
                self.segments.insert(key, Arc::new(s));
                assert(self.deep_view() =~= before.insert(name@, sv));
            },
            None => {
                self.segments.remove(&key);
                assert(self.deep_view() =~= before.remove(name@));
            },
        }
    }
}

/// A reload of one segment does not change what the other segments hold.
pub proof fn law_reload_leaves_other_segments(
    lib: LibraryView,
    name: Seq<char>,
    segment: SegmentView,
    other: Seq<char>,
)
    requires
        other != name,
    ensures
        lib.insert(name, segment).contains_key(other) == lib.contains_key(other),
        lib.contains_key(other) ==> lib.insert(name, segment)[other] == lib[other],
        lib.remove(name).contains_key(other) == lib.contains_key(other),
        lib.contains_key(other) ==> lib.remove(name)[other] == lib[other],
{
}

/// After a reload the segment of a service holds the last entry read for each
/// method, URI and tenant, and no other.
pub proof fn law_last_entry_wins(es: Seq<MockEntryView>, i: int)
    requires
        0 <= i < es.len(),
        forall|j: int| i < j < es.len() ==> entry_key(#[trigger] es[j]) != entry_key(es[i]),
    ensures
        with_entries(Map::empty(), es).contains_key(entry_key(es[i])),
        with_entries(Map::empty(), es)[entry_key(es[i])] == es[i],
    decreases es.len(),
{
    let init = es.drop_last();
    if i < es.len() - 1 {
        assert(entry_key(es[es.len() - 1]) != entry_key(es[i]));
        assert forall|j: int| i < j < init.len() implies entry_key(#[trigger] init[j])
            != entry_key(init[i]) by {
            assert(init[j] == es[j]);
        }
        law_last_entry_wins(init, i);
    }
}

// ─── Laws of lookup ──────────────────────────────────────────────────────────

proof fn lemma_first_entry(
    segs: Seq<(Seq<char>, SegmentView)>,
    svc: Seq<char>,
    key: (Seq<char>, Seq<char>, Seq<char>),
)
    ensures
        match first_entry(segs, svc, key) {
            Some(e) => exists|i: int|
                0 <= i < segs.len() && segment_has((#[trigger] segs[i]).1, svc, key) && e
                    == segs[i].1[svc][key] && forall|j: int|
                    0 <= j < i ==> !segment_has((#[trigger] segs[j]).1, svc, key),
            None => forall|i: int|
                0 <= i < segs.len() ==> !segment_has((#[trigger] segs[i]).1, svc, key),
        },
    decreases segs.len(),
{
    if segs.len() > 0 && !segment_has(segs[0].1, svc, key) {
        let rest = segs.drop_first();
        lemma_first_entry(rest, svc, key);
        match first_entry(rest, svc, key) {
            Some(e) => {
                let i = choose|i: int|
                    0 <= i < rest.len() && segment_has((#[trigger] rest[i]).1, svc, key) && e
                        == rest[i].1[svc][key] && forall|j: int|
                        0 <= j < i ==> !segment_has((#[trigger] rest[j]).1, svc, key);
                assert(segs[i + 1] == rest[i]);
                assert forall|j: int| 0 <= j < i + 1 implies !segment_has(
                    (#[trigger] segs[j]).1,
                    svc,
                    key,
                ) by {
                    if j > 0 {
                        assert(rest[j - 1] == segs[j]);
                    }
                }
            },
            None => {
                assert forall|i: int| 0 <= i < segs.len() implies !segment_has(
                    (#[trigger] segs[i]).1,
                    svc,
                    key,
                ) by {
                    if i > 0 {
                        assert(rest[i - 1] == segs[i]);
                    }
                }
            },
        }
    }
}

/// `name` is the segment that answers for the service and the key: it has an entry,
/// and it is that of the service, or else the service's own has none and no segment
/// before it by name has one.
pub open spec fn answering_segment(
    lib: LibraryView,
    name: Seq<char>,
    svc: Seq<char>,
    key: (Seq<char>, Seq<char>, Seq<char>),
) -> bool {
    &&& lib.contains_key(name)
    &&& segment_has(lib[name], svc, key)
    &&& name == svc || {
        &&& lib.contains_key(svc) ==> !segment_has(lib[svc], svc, key)
        &&& forall|n: Seq<char>| #[trigger]
            lib.contains_key(n) && crate::text::text_lt(n, name) ==> !segment_has(lib[n], svc, key)
    }
}

/// A lookup finds the entry in the segment that answers, and nothing only if no
/// segment has one.
pub proof fn law_lookup(
    lib: LibraryView,
    svc: Seq<char>,
    method: Seq<char>,
    uri: Seq<char>,
    tenant: Seq<char>,
)
    requires
        lib.dom().finite(),
    ensures
        match library_entry(lib, svc, method, uri, tenant) {
            Some(e) => exists|name: Seq<char>| #[trigger]
                answering_segment(lib, name, svc, (method, uri, tenant)) && e
                    == lib[name][svc][(method, uri, tenant)],
            None => forall|name: Seq<char>| #[trigger]
                lib.contains_key(name) ==> !segment_has(lib[name], svc, (method, uri, tenant)),
        },
        forall|name: Seq<char>| #[trigger]
            answering_segment(lib, name, svc, (method, uri, tenant)) ==> library_entry(
                lib,
                svc,
                method,
                uri,
                tenant,
            ) == Some(lib[name][svc][(method, uri, tenant)]),
{
    let key = (method, uri, tenant);
    let segs = ordmap::sorted_pairs::<String, SegmentView>(lib);
    ordmap::lemma_finite_map_has_pairs::<String, SegmentView>(lib);
    ordmap::lemma_pairs_map::<String, SegmentView>(segs);
    lemma_first_entry(segs, svc, key);
    if lib.contains_key(svc) && segment_has(lib[svc], svc, key) {
        assert(answering_segment(lib, svc, svc, key));
    } else {
        match first_entry(segs, svc, key) {
            Some(e) => {
                let i = choose|i: int|
                    0 <= i < segs.len() && segment_has((#[trigger] segs[i]).1, svc, key) && e
                        == segs[i].1[svc][key] && forall|j: int|
                        0 <= j < i ==> !segment_has((#[trigger] segs[j]).1, svc, key);
                let name = segs[i].0;
                assert(lib.contains_key(name) && lib[name] == segs[i].1);
                assert forall|n: Seq<char>| #[trigger]
                    lib.contains_key(n) && crate::text::text_lt(n, name) implies !segment_has(
                    lib[n],
                    svc,
                    key,
                ) by {
                    let j = ordmap::key_index(segs, n);
                    assert(ordmap::has_key(segs, n));
                    assert(segs[j].0 == n);
                    assert(lib[n] == segs[j].1);
                    if j > i {
                        crate::text::lemma_text_lt_transitive(n, name, n);
                    }
                    crate::text::lemma_text_lt_irreflexive(n);
                    assert(j < i);
                }
                assert(answering_segment(lib, name, svc, key));
                assert forall|n: Seq<char>| #[trigger]
                    answering_segment(lib, n, svc, key) implies Some(e) == Some(
                    lib[n][svc][key],
                ) by {
                    crate::text::lemma_text_lt_total(n, name);
                }
            },
            None => {
                assert forall|n: Seq<char>| #[trigger] lib.contains_key(n) implies !segment_has(
                    lib[n],
                    svc,
                    key,
                ) by {
                    let j = ordmap::key_index(segs, n);
                    assert(ordmap::has_key(segs, n));
                    assert(segs[j].0 == n);
                    assert(lib[n] == segs[j].1);
                }
            },
        }
    }
}

/// What was recorded is found again, whatever else the library holds.
pub proof fn law_recorded_is_found(lib: LibraryView, svc: Seq<char>, e: MockEntryView)
    ensures
        library_entry(
            library_with(lib, svc, svc, e),
            svc,
            e.request.method,
            e.request.uri,
            e.tenant,
        ) == Some(e),
{
}

/// After an entry is put anywhere under a service, a lookup of its method, URI and
/// tenant finds an entry.
pub proof fn law_recorded_answers(
    lib: LibraryView,
    name: Seq<char>,
    svc: Seq<char>,
    e: MockEntryView,
)
    requires
        lib.dom().finite(),
    ensures
        library_entry(
            library_with(lib, name, svc, e),
            svc,
            e.request.method,
            e.request.uri,
            e.tenant,
        ) is Some,
{
    let after = library_with(lib, name, svc, e);
    law_lookup(after, svc, e.request.method, e.request.uri, e.tenant);
    assert(after.contains_key(name));
    assert(segment_has(after[name], svc, entry_key(e)));
}

/// Putting an entry into the library does not change a lookup for another tenant,
/// method, URI or service.
pub proof fn law_insert_leaves_other_lookups(
    lib: LibraryView,
    name: Seq<char>,
    svc: Seq<char>,
    e: MockEntryView,
    svc2: Seq<char>,
    method: Seq<char>,
    uri: Seq<char>,
    tenant: Seq<char>,
)
    requires
        lib.dom().finite(),
        svc2 != svc || (method, uri, tenant) != entry_key(e),
    ensures
        library_entry(library_with(lib, name, svc, e), svc2, method, uri, tenant)
            == library_entry(lib, svc2, method, uri, tenant),
{
    let key = (method, uri, tenant);
    let after = library_with(lib, name, svc, e);
    assert forall|n: Seq<char>| #[trigger] after.contains_key(n) implies segment_has(
        after[n],
        svc2,
        key,
    ) == (lib.contains_key(n) && segment_has(lib[n], svc2, key)) && (segment_has(
        after[n],
        svc2,
        key,
    ) ==> after[n][svc2][key] == lib[n][svc2][key]) by {
    }
    law_lookup(lib, svc2, method, uri, tenant);
    law_lookup(after, svc2, method, uri, tenant);
    match library_entry(lib, svc2, method, uri, tenant) {
        Some(x) => {
            let n = choose|n: Seq<char>| #[trigger]
                answering_segment(lib, n, svc2, key) && x == lib[n][svc2][key];
            assert(after.contains_key(n));
            if n != svc2 {
                assert(after.contains_key(svc2) ==> !segment_has(after[svc2], svc2, key));
                assert forall|m: Seq<char>| #[trigger]
                    after.contains_key(m) && crate::text::text_lt(m, n) implies !segment_has(
                    after[m],
                    svc2,
                    key,
                ) by {
                    assert(lib.contains_key(m) ==> !segment_has(lib[m], svc2, key));
                }
            }
            assert(answering_segment(after, n, svc2, key));
        },
        None => {
            if library_entry(after, svc2, method, uri, tenant) is Some {
                let n = choose|n: Seq<char>| #[trigger] answering_segment(after, n, svc2, key);
                assert(after.contains_key(n));
            }
        },
    }
}

/// Every entry stands under its own method, URI and tenant.
pub open spec fn keyed(lib: LibraryView) -> bool {
    forall|name: Seq<char>, svc: Seq<char>, key: (Seq<char>, Seq<char>, Seq<char>)|
        lib.contains_key(name) && #[trigger] segment_has(lib[name], svc, key) ==> entry_key(
            lib[name][svc][key],
        ) == key
}

/// An insert keeps every entry under its own key.
pub proof fn law_insert_keeps_keyed(
    lib: LibraryView,
    name: Seq<char>,
    svc: Seq<char>,
    e: MockEntryView,
)
    requires
        keyed(lib),
    ensures
        keyed(library_with(lib, name, svc, e)),
{
    let after = library_with(lib, name, svc, e);
    assert forall|n: Seq<char>, s: Seq<char>, key: (Seq<char>, Seq<char>, Seq<char>)|
        after.contains_key(n) && #[trigger] segment_has(after[n], s, key) implies entry_key(
        after[n][s][key],
    ) == key by {
        if lib.contains_key(n) && segment_has(lib[n], s, key) {
            assert(entry_key(lib[n][s][key]) == key);
        }
    }
}

/// A segment that is read from a file holds every entry under its own key.
pub proof fn law_segment_keeps_keyed(
    lib: LibraryView,
    name: Seq<char>,
    svc: Seq<char>,
    es: Seq<MockEntryView>,
)
    requires
        keyed(lib),
        es.len() > 0,
    ensures
        keyed(lib.insert(name, segment_of(svc, es)->0)),
{
    let seg = segment_of(svc, es)->0;
    let after = lib.insert(name, seg);
    assert forall|n: Seq<char>, s: Seq<char>, key: (Seq<char>, Seq<char>, Seq<char>)|
        after.contains_key(n) && #[trigger] segment_has(after[n], s, key) implies entry_key(
        after[n][s][key],
    ) == key by {
        if n == name {
            lemma_with_entries_keyed(es, key);
        } else {
            assert(segment_has(lib[n], s, key));
        }
    }
}

proof fn lemma_with_entries_keyed(
    es: Seq<MockEntryView>,
    key: (Seq<char>, Seq<char>, Seq<char>),
)
    requires
        with_entries(Map::empty(), es).contains_key(key),
    ensures
        entry_key(with_entries(Map::empty(), es)[key]) == key,
    decreases es.len(),
{
    if es.len() > 0 && entry_key(es.last()) != key {
        lemma_with_entries_keyed(es.drop_last(), key);
    }
}

/// A request under a tenant never gets an entry of another tenant.
pub proof fn law_tenants_are_isolated(
    lib: LibraryView,
    svc: Seq<char>,
    method: Seq<char>,
    uri: Seq<char>,
    tenant: Seq<char>,
)
    requires
        lib.dom().finite(),
        keyed(lib),
    ensures
        match library_entry(lib, svc, method, uri, tenant) {
            Some(e) => e.tenant == tenant && e.request.method == method && e.request.uri == uri,
            None => true,
        },
{
    law_lookup(lib, svc, method, uri, tenant);
    let key = (method, uri, tenant);
    if library_entry(lib, svc, method, uri, tenant) is Some {
        let n = choose|n: Seq<char>| #[trigger]
            answering_segment(lib, n, svc, key) && library_entry(lib, svc, method, uri, tenant)
                == Some(lib[n][svc][key]);
        assert(segment_has(lib[n], svc, key));
    }
}

/// The entries of a service in key order, as a compacted file holds them.
pub open spec fn compacted_entries(mocks: ServiceView) -> Seq<MockEntryView> {
    service_entries(mocks, None)
}

proof fn lemma_all_tenants(ps: Seq<((Seq<char>, Seq<char>, Seq<char>), MockEntryView)>)
    ensures
        tenant_entries(ps, None) == ps.map_values(
            |p: ((Seq<char>, Seq<char>, Seq<char>), MockEntryView)| p.1,
        ),
    decreases ps.len(),
{
    let vs = ps.map_values(|p: ((Seq<char>, Seq<char>, Seq<char>), MockEntryView)| p.1);
    if ps.len() == 0 {
        assert(tenant_entries(ps, None) =~= vs);
    } else {
        let init = ps.drop_last();
        lemma_all_tenants(init);
        assert(vs =~= init.map_values(
            |p: ((Seq<char>, Seq<char>, Seq<char>), MockEntryView)| p.1,
        ).push(ps.last().1));
    }
}

proof fn lemma_with_entries_pairs(ps: Seq<((Seq<char>, Seq<char>, Seq<char>), MockEntryView)>)
    requires
        ordmap::ascending::<(String, String, String), MockEntryView>(ps),
        forall|i: int| 0 <= i < ps.len() ==> entry_key((#[trigger] ps[i]).1) == ps[i].0,
    ensures
        with_entries(Map::empty(), tenant_entries(ps, None)) == ordmap::pairs_map(ps),
        tenant_entries(ps, None).len() == ps.len(),
    decreases ps.len(),
{
    lemma_all_tenants(ps);
    let vs = tenant_entries(ps, None);
    if ps.len() == 0 {
        assert(with_entries(Map::empty(), vs) =~= ordmap::pairs_map(ps));
    } else {
        let init = ps.drop_last();
        ordmap::lemma_drop_last::<(String, String, String), MockEntryView>(ps);
        ordmap::lemma_pairs_map::<(String, String, String), MockEntryView>(ps);
        assert forall|i: int| 0 <= i < init.len() implies entry_key((#[trigger] init[i]).1)
            == init[i].0 by {
            assert(init[i] == ps[i]);
        }
        lemma_with_entries_pairs(init);
        lemma_all_tenants(init);
        assert(vs.drop_last() =~= tenant_entries(init, None));
        let last = ps[ps.len() - 1];
        assert(vs.last() == last.1);
        assert(ordmap::pairs_map(ps).contains_key(last.0));
        assert(ordmap::pairs_map(ps)[last.0] == last.1);
        assert(with_entries(Map::empty(), vs) =~= ordmap::pairs_map(ps));
    }
}

/// A compacted file holds one line per method, URI and tenant, and loads to the same
/// entries.
pub proof fn law_compaction_keeps_entries(mocks: ServiceView)
    requires
        mocks.dom().finite(),
        forall|key: (Seq<char>, Seq<char>, Seq<char>)| #[trigger]
            mocks.contains_key(key) ==> entry_key(mocks[key]) == key,
    ensures
        with_entries(Map::empty(), compacted_entries(mocks)) == mocks,
        compacted_entries(mocks).len() == mocks.dom().len(),
{
    let ps = ordmap::sorted_pairs::<(String, String, String), MockEntryView>(mocks);
    ordmap::lemma_finite_map_has_pairs::<(String, String, String), MockEntryView>(mocks);
    ordmap::lemma_pairs_map::<(String, String, String), MockEntryView>(ps);
    assert forall|i: int| 0 <= i < ps.len() implies entry_key((#[trigger] ps[i]).1) == ps[i].0 by {
        assert(mocks.contains_key(ps[i].0));
    }
    lemma_with_entries_pairs(ps);
}

proof fn lemma_tenant_entries(
    ps: Seq<((Seq<char>, Seq<char>, Seq<char>), MockEntryView)>,
    tenant: Seq<char>,
)
    requires
        forall|i: int| 0 <= i < ps.len() ==> (#[trigger] ps[i]).1.tenant == ps[i].0.2,
    ensures
        forall|i: int|
            0 <= i < tenant_entries(ps, Some(tenant)).len() ==> (#[trigger] tenant_entries(
                ps,
                Some(tenant),
            )[i]).tenant == tenant,
    decreases ps.len(),
{
    if ps.len() > 0 {
        let init = ps.drop_last();
        assert forall|i: int| 0 <= i < init.len() implies (#[trigger] init[i]).1.tenant
            == init[i].0.2 by {
            assert(init[i] == ps[i]);
        }
        lemma_tenant_entries(init, tenant);
        let before = tenant_entries(init, Some(tenant));
        let r = tenant_entries(ps, Some(tenant));
        assert(ps[ps.len() - 1].1.tenant == ps[ps.len() - 1].0.2);
        assert forall|i: int| 0 <= i < r.len() implies (#[trigger] r[i]).tenant == tenant by {
            if i < before.len() {
                assert(r[i] == before[i]);
            }
        }
    }
}

/// A list of the entries of one tenant holds no entry of another.
pub proof fn law_tenant_list(mocks: ServiceView, tenant: Seq<char>, i: int)
    requires
        mocks.dom().finite(),
        forall|key: (Seq<char>, Seq<char>, Seq<char>)| #[trigger]
            mocks.contains_key(key) ==> entry_key(mocks[key]) == key,
        0 <= i < service_entries(mocks, Some(tenant)).len(),
    ensures
        service_entries(mocks, Some(tenant))[i].tenant == tenant,
{
    let ps = ordmap::sorted_pairs::<(String, String, String), MockEntryView>(mocks);
    ordmap::lemma_finite_map_has_pairs::<(String, String, String), MockEntryView>(mocks);
    ordmap::lemma_pairs_map::<(String, String, String), MockEntryView>(ps);
    assert forall|j: int| 0 <= j < ps.len() implies (#[trigger] ps[j]).1.tenant == ps[j].0.2 by {
        assert(mocks.contains_key(ps[j].0));
    }
    lemma_tenant_entries(ps, tenant);
}

/// Every service of the library has finitely many entries.
pub open spec fn finite_services(lib: LibraryView) -> bool {
    lib.dom().finite() && forall|name: Seq<char>, svc: Seq<char>|
        lib.contains_key(name) && #[trigger] lib[name].contains_key(svc)
            ==> lib[name][svc].dom().finite()
}

proof fn lemma_entries_in_tenant(
    segs: Seq<(Seq<char>, SegmentView)>,
    lib: LibraryView,
    svc: Seq<char>,
    tenant: Seq<char>,
)
    requires
        keyed(lib),
        finite_services(lib),
        forall|i: int|
            0 <= i < segs.len() ==> lib.contains_key((#[trigger] segs[i]).0) && lib[segs[i].0]
                == segs[i].1,
    ensures
        forall|i: int|
            0 <= i < entries_in(segs, svc, Some(tenant)).len() ==> (#[trigger] entries_in(
                segs,
                svc,
                Some(tenant),
            )[i]).tenant == tenant,
    decreases segs.len(),
{
    if segs.len() > 0 {
        let init = segs.drop_last();
        assert forall|i: int| 0 <= i < init.len() implies lib.contains_key((#[trigger] init[i]).0)
            && lib[init[i].0] == init[i].1 by {
            assert(init[i] == segs[i]);
        }
        lemma_entries_in_tenant(init, lib, svc, tenant);
        let before = entries_in(init, svc, Some(tenant));
        let (name, seg) = segs[segs.len() - 1];
        let r = entries_in(segs, svc, Some(tenant));
        assert forall|i: int| 0 <= i < r.len() implies (#[trigger] r[i]).tenant == tenant by {
            if i < before.len() {
                assert(r[i] == before[i]);
            } else {
                assert(lib[name].contains_key(svc));
                assert forall|key: (Seq<char>, Seq<char>, Seq<char>)| #[trigger]
                    seg[svc].contains_key(key) implies entry_key(seg[svc][key]) == key by {
                    assert(segment_has(lib[name], svc, key));
                }
                law_tenant_list(seg[svc], tenant, i - before.len());
            }
        }
    }
}

/// The entries of a service that are listed for a tenant are all of that tenant.
pub proof fn law_service_list_of_tenant(
    lib: LibraryView,
    svc: Seq<char>,
    tenant: Seq<char>,
    i: int,
)
    requires
        keyed(lib),
        finite_services(lib),
        0 <= i < entries_in(
            ordmap::sorted_pairs::<String, SegmentView>(lib),
            svc,
            Some(tenant),
        ).len(),
    ensures
        entries_in(
            ordmap::sorted_pairs::<String, SegmentView>(lib),
            svc,
            Some(tenant),
        )[i].tenant == tenant,
{
    let segs = ordmap::sorted_pairs::<String, SegmentView>(lib);
    ordmap::lemma_finite_map_has_pairs::<String, SegmentView>(lib);
    ordmap::lemma_pairs_map::<String, SegmentView>(segs);
    lemma_entries_in_tenant(segs, lib, svc, tenant);
}

// ─── Laws of lists ───────────────────────────────────────────────────────────

/// The library has finitely many segments with finitely many services with finitely
/// many entries.
pub open spec fn finite_library(lib: LibraryView) -> bool {
    &&& finite_services(lib)
    &&& forall|name: Seq<char>| #[trigger] lib.contains_key(name) ==> lib[name].dom().finite()
}

/// Every library is finite.
pub proof fn law_library_is_finite(library: MockLibrary)
    ensures
        finite_library(library.deep_view()),
{
    let lib = library.deep_view();
    ordmap::lemma_finite(library.segments);
    assert(lib.dom() =~= library.segments@.dom());
    assert forall|name: Seq<char>| #[trigger] lib.contains_key(name) implies lib[name].dom().finite()
        && forall|svc: Seq<char>| #[trigger]
        lib[name].contains_key(svc) ==> lib[name][svc].dom().finite() by {
        let services = library.segments@[name].services;
        ordmap::lemma_finite(services);
        assert(lib[name].dom() =~= services@.dom());
        assert forall|svc: Seq<char>| #[trigger]
            lib[name].contains_key(svc) implies lib[name][svc].dom().finite() by {
            ordmap::lemma_finite(services@[svc]);
            assert(lib[name][svc].dom() =~= services@[svc]@.dom());
        }
    }
}

/// The lists of the entries of these services, one after the other.
pub open spec fn entries_by_service(
    segs: Seq<(Seq<char>, SegmentView)>,
    svcs: Seq<Seq<char>>,
    tenant: Option<Seq<char>>,
) -> Seq<MockEntryView>
    decreases svcs.len(),
{
    if svcs.len() == 0 {
        Seq::empty()
    } else {
        entries_by_service(segs, svcs.drop_last(), tenant) + entries_in(segs, svcs.last(), tenant)
    }
}

/// The entries of these services in one segment.
spec fn segment_part(seg: SegmentView, svcs: Seq<Seq<char>>, tenant: Option<Seq<char>>) -> Multiset<
    MockEntryView,
>
    decreases svcs.len(),
{
    if svcs.len() == 0 {
        Multiset::empty()
    } else {
        let before = segment_part(seg, svcs.drop_last(), tenant);
        if seg.contains_key(svcs.last()) {
            before.add(service_entries(seg[svcs.last()], tenant).to_multiset())
        } else {
            before
        }
    }
}

proof fn lemma_concat_multiset(a: Seq<MockEntryView>, b: Seq<MockEntryView>)
    ensures
        (a + b).to_multiset() == a.to_multiset().add(b.to_multiset()),
{
    vstd::seq_lib::lemma_multiset_commutative(a, b);
}

proof fn lemma_empty_multiset()
    ensures
        Seq::<MockEntryView>::empty().to_multiset() == Multiset::<MockEntryView>::empty(),
{
    let e = Seq::<MockEntryView>::empty();
    vstd::seq_lib::to_multiset_len(e);
    assert(e.to_multiset() =~= Multiset::empty());
}

/// The lists of the services over one more segment.
proof fn lemma_one_more_segment(
    segs: Seq<(Seq<char>, SegmentView)>,
    svcs: Seq<Seq<char>>,
    tenant: Option<Seq<char>>,
)
    requires
        segs.len() > 0,
    ensures
        entries_by_service(segs, svcs, tenant).to_multiset() =~= entries_by_service(
            segs.drop_last(),
            svcs,
            tenant,
        ).to_multiset().add(segment_part(segs.last().1, svcs, tenant)),
    decreases svcs.len(),
{
    let init = segs.drop_last();
    let seg = segs.last().1;
    if svcs.len() > 0 {
        let rest = svcs.drop_last();
        let svc = svcs.last();
        lemma_one_more_segment(segs, rest, tenant);
        lemma_concat_multiset(
            entries_by_service(segs, rest, tenant),
            entries_in(segs, svc, tenant),
        );
        lemma_concat_multiset(
            entries_by_service(init, rest, tenant),
            entries_in(init, svc, tenant),
        );
        if seg.contains_key(svc) {
            lemma_concat_multiset(
                entries_in(init, svc, tenant),
                service_entries(seg[svc], tenant),
            );
        }
    } else {
        lemma_empty_multiset();
    }
}

/// Leaving out a service leaves out its entries.
proof fn lemma_part_without(
    seg: SegmentView,
    svcs: Seq<Seq<char>>,
    tenant: Option<Seq<char>>,
    k: Seq<char>,
)
    requires
        svcs.no_duplicates(),
        seg.contains_key(k),
    ensures
        segment_part(seg, svcs, tenant) =~= (if svcs.contains(k) {
            segment_part(seg.remove(k), svcs, tenant).add(
                service_entries(seg[k], tenant).to_multiset(),
            )
        } else {
            segment_part(seg.remove(k), svcs, tenant)
        }),
    decreases svcs.len(),
{
    if svcs.len() > 0 {
        let rest = svcs.drop_last();
        let last = svcs[svcs.len() - 1];
        assert(rest.no_duplicates());
        lemma_part_without(seg, rest, tenant, k);
        if last == k {
            assert(svcs[svcs.len() - 1] == k);
            if rest.contains(k) {
                let i = rest.index_of(k);
                assert(svcs[i] == k);
            }
        } else {
            if svcs.contains(k) {
                let i = svcs.index_of(k);
                assert(rest[i] == k);
            }
            if rest.contains(k) {
                let i = rest.index_of(k);
                assert(svcs[i] == k);
            }
        }
    }
}

proof fn lemma_part_of_none(svcs: Seq<Seq<char>>, tenant: Option<Seq<char>>)
    ensures
        segment_part(Map::empty(), svcs, tenant) =~= Multiset::empty(),
    decreases svcs.len(),
{
    if svcs.len() > 0 {
        lemma_part_of_none(svcs.drop_last(), tenant);
    }
}

/// The services of a segment together hold its entries.
proof fn lemma_segment_part(
    services: Seq<(Seq<char>, ServiceView)>,
    svcs: Seq<Seq<char>>,
    tenant: Option<Seq<char>>,
)
    requires
        ordmap::ascending::<String, ServiceView>(services),
        svcs.no_duplicates(),
        forall|i: int| 0 <= i < services.len() ==> svcs.contains((#[trigger] services[i]).0),
    ensures
        services_entries(services, tenant).to_multiset() =~= segment_part(
            ordmap::pairs_map(services),
            svcs,
            tenant,
        ),
    decreases services.len(),
{
    let seg = ordmap::pairs_map(services);
    if services.len() == 0 {
        assert(seg =~= Map::empty());
        lemma_part_of_none(svcs, tenant);
        lemma_empty_multiset();
    } else {
        let init = services.drop_last();
        let (k, mocks) = services[services.len() - 1];
        ordmap::lemma_drop_last::<String, ServiceView>(services);
        ordmap::lemma_pairs_map::<String, ServiceView>(services);
        assert(seg.contains_key(k) && seg[k] == mocks);
        assert(svcs.contains(services[services.len() - 1].0));
        assert forall|i: int| 0 <= i < init.len() implies svcs.contains((#[trigger] init[i]).0) by {
            assert(init[i] == services[i]);
        }
        lemma_segment_part(init, svcs, tenant);
        lemma_part_without(seg, svcs, tenant, k);
        lemma_concat_multiset(services_entries(init, tenant), service_entries(mocks, tenant));
    }
}

proof fn lemma_lists_of_services(
    segs: Seq<(Seq<char>, SegmentView)>,
    svcs: Seq<Seq<char>>,
    tenant: Option<Seq<char>>,
)
    requires
        svcs.no_duplicates(),
        forall|i: int| 0 <= i < segs.len() ==> (#[trigger] segs[i]).1.dom().finite(),
        forall|i: int, svc: Seq<char>|
            0 <= i < segs.len() && #[trigger] segs[i].1.contains_key(svc) ==> svcs.contains(svc),
    ensures
        entries_by_service(segs, svcs, tenant).to_multiset() =~= all_entries_in(
            segs,
            tenant,
        ).to_multiset(),
    decreases segs.len(),
{
    if segs.len() == 0 {
        lemma_no_segments(segs, svcs, tenant);
    } else {
        let init = segs.drop_last();
        let seg = segs[segs.len() - 1].1;
        assert forall|i: int| 0 <= i < init.len() implies (#[trigger] init[i]).1.dom().finite() by {
            assert(init[i] == segs[i]);
        }
        assert forall|i: int, svc: Seq<char>|
            0 <= i < init.len() && #[trigger] init[i].1.contains_key(svc) implies svcs.contains(
            svc,
        ) by {
            assert(init[i] == segs[i]);
        }
        lemma_lists_of_services(init, svcs, tenant);
        lemma_one_more_segment(segs, svcs, tenant);
        let services = ordmap::sorted_pairs::<String, ServiceView>(seg);
        ordmap::lemma_finite_map_has_pairs::<String, ServiceView>(seg);
        ordmap::lemma_pairs_map::<String, ServiceView>(services);
        assert forall|i: int| 0 <= i < services.len() implies svcs.contains(
            (#[trigger] services[i]).0,
        ) by {
            assert(segs[segs.len() - 1].1.contains_key(services[i].0));
        }
        lemma_segment_part(services, svcs, tenant);
        lemma_concat_multiset(all_entries_in(init, tenant), services_entries(services, tenant));
    }
}

proof fn lemma_no_segments(
    segs: Seq<(Seq<char>, SegmentView)>,
    svcs: Seq<Seq<char>>,
    tenant: Option<Seq<char>>,
)
    requires
        segs.len() == 0,
    ensures
        entries_by_service(segs, svcs, tenant) == Seq::<MockEntryView>::empty(),
    decreases svcs.len(),
{
    if svcs.len() > 0 {
        lemma_no_segments(segs, svcs.drop_last(), tenant);
        assert(entries_by_service(segs, svcs, tenant) =~= Seq::empty());
    }
}

/// The lists of all services are together the list of all entries, in some order: for
/// one tenant or for all.
pub proof fn law_services_share_all_entries(
    lib: LibraryView,
    svcs: Seq<Seq<char>>,
    tenant: Option<Seq<char>>,
)
    requires
        finite_library(lib),
        svcs.no_duplicates(),
        svcs.to_set() == library_services(lib),
    ensures
        ({
            let segs = ordmap::sorted_pairs::<String, SegmentView>(lib);
            entries_by_service(segs, svcs, tenant).to_multiset() == all_entries_in(
                segs,
                tenant,
            ).to_multiset()
        }),
{
    let segs = ordmap::sorted_pairs::<String, SegmentView>(lib);
    ordmap::lemma_finite_map_has_pairs::<String, SegmentView>(lib);
    ordmap::lemma_pairs_map::<String, SegmentView>(segs);
    assert forall|i: int| 0 <= i < segs.len() implies (#[trigger] segs[i]).1.dom().finite() by {
        assert(lib.contains_key(segs[i].0));
    }
    assert forall|i: int, svc: Seq<char>|
        0 <= i < segs.len() && #[trigger] segs[i].1.contains_key(svc) implies svcs.contains(svc) by {
        assert(lib.contains_key(segs[i].0) && lib[segs[i].0].contains_key(svc));
        assert(library_services(lib).contains(svc));
        assert(svcs.to_set().contains(svc));
    }
    lemma_lists_of_services(segs, svcs, tenant);
}

proof fn lemma_services_length(services: Seq<(Seq<char>, ServiceView)>)
    requires
        forall|i: int| 0 <= i < services.len() ==> (#[trigger] services[i]).1.dom().finite(),
    ensures
        services_entries(services, None).len() == services_count(services),
    decreases services.len(),
{
    if services.len() > 0 {
        let init = services.drop_last();
        let mocks = services[services.len() - 1].1;
        assert forall|i: int| 0 <= i < init.len() implies (#[trigger] init[i]).1.dom().finite() by {
            assert(init[i] == services[i]);
        }
        lemma_services_length(init);
        let ps = ordmap::sorted_pairs::<(String, String, String), MockEntryView>(mocks);
        ordmap::lemma_finite_map_has_pairs::<(String, String, String), MockEntryView>(mocks);
        ordmap::lemma_pairs_map::<(String, String, String), MockEntryView>(ps);
        lemma_all_tenants(ps);
    }
}

proof fn lemma_segments_length(lib: LibraryView, segs: Seq<(Seq<char>, SegmentView)>)
    requires
        finite_library(lib),
        forall|i: int|
            0 <= i < segs.len() ==> lib.contains_key((#[trigger] segs[i]).0) && lib[segs[i].0]
                == segs[i].1,
    ensures
        all_entries_in(segs, None).len() == segments_count(segs),
    decreases segs.len(),
{
    if segs.len() > 0 {
        let init = segs.drop_last();
        let (name, seg) = segs[segs.len() - 1];
        assert forall|i: int| 0 <= i < init.len() implies lib.contains_key((#[trigger] init[i]).0)
            && lib[init[i].0] == init[i].1 by {
            assert(init[i] == segs[i]);
        }
        lemma_segments_length(lib, init);
        assert(lib.contains_key(name) && lib[name] == seg);
        let services = ordmap::sorted_pairs::<String, ServiceView>(seg);
        ordmap::lemma_finite_map_has_pairs::<String, ServiceView>(seg);
        ordmap::lemma_pairs_map::<String, ServiceView>(services);
        assert forall|i: int| 0 <= i < services.len() implies (
        #[trigger] services[i]).1.dom().finite() by {
            assert(lib[name].contains_key(services[i].0));
        }
        lemma_services_length(services);
    }
}

/// The list of all entries is as long as there are entries.
pub proof fn law_all_entries_are_counted(lib: LibraryView)
    requires
        finite_library(lib),
    ensures
        all_entries_in(ordmap::sorted_pairs::<String, SegmentView>(lib), None).len()
            == library_count(lib),
{
    let segs = ordmap::sorted_pairs::<String, SegmentView>(lib);
    ordmap::lemma_finite_map_has_pairs::<String, SegmentView>(lib);
    ordmap::lemma_pairs_map::<String, SegmentView>(segs);
    lemma_segments_length(lib, segs);
}

/// The entries of a tenant in a list, in order.
pub open spec fn of_tenant(es: Seq<MockEntryView>, tenant: Seq<char>) -> Seq<MockEntryView>
    decreases es.len(),
{
    if es.len() == 0 {
        Seq::empty()
    } else if es.last().tenant == tenant {
        of_tenant(es.drop_last(), tenant).push(es.last())
    } else {
        of_tenant(es.drop_last(), tenant)
    }
}

proof fn lemma_of_tenant_concat(a: Seq<MockEntryView>, b: Seq<MockEntryView>, tenant: Seq<char>)
    ensures
        of_tenant(a + b, tenant) == of_tenant(a, tenant) + of_tenant(b, tenant),
    decreases b.len(),
{
    if b.len() == 0 {
        assert(a + b =~= a);
        assert(of_tenant(a, tenant) + of_tenant(b, tenant) =~= of_tenant(a, tenant));
    } else {
        assert((a + b).drop_last() =~= a + b.drop_last());
        lemma_of_tenant_concat(a, b.drop_last(), tenant);
        assert(of_tenant(a + b, tenant) =~= of_tenant(a, tenant) + of_tenant(b, tenant));
    }
}

proof fn lemma_pairs_of_tenant(
    ps: Seq<((Seq<char>, Seq<char>, Seq<char>), MockEntryView)>,
    tenant: Seq<char>,
)
    requires
        forall|i: int| 0 <= i < ps.len() ==> (#[trigger] ps[i]).1.tenant == ps[i].0.2,
    ensures
        tenant_entries(ps, Some(tenant)) == of_tenant(tenant_entries(ps, None), tenant),
    decreases ps.len(),
{
    if ps.len() > 0 {
        let init = ps.drop_last();
        assert forall|i: int| 0 <= i < init.len() implies (#[trigger] init[i]).1.tenant
            == init[i].0.2 by {
            assert(init[i] == ps[i]);
        }
        lemma_pairs_of_tenant(init, tenant);
        assert(ps[ps.len() - 1].1.tenant == ps[ps.len() - 1].0.2);
        assert(tenant_entries(ps, None).drop_last() =~= tenant_entries(init, None));
    }
}

proof fn lemma_service_of_tenant(mocks: ServiceView, tenant: Seq<char>)
    requires
        mocks.dom().finite(),
        forall|key: (Seq<char>, Seq<char>, Seq<char>)| #[trigger]
            mocks.contains_key(key) ==> entry_key(mocks[key]) == key,
    ensures
        service_entries(mocks, Some(tenant)) == of_tenant(service_entries(mocks, None), tenant),
{
    let ps = ordmap::sorted_pairs::<(String, String, String), MockEntryView>(mocks);
    ordmap::lemma_finite_map_has_pairs::<(String, String, String), MockEntryView>(mocks);
    ordmap::lemma_pairs_map::<(String, String, String), MockEntryView>(ps);
    assert forall|j: int| 0 <= j < ps.len() implies (#[trigger] ps[j]).1.tenant == ps[j].0.2 by {
        assert(mocks.contains_key(ps[j].0));
    }
    lemma_pairs_of_tenant(ps, tenant);
}

proof fn lemma_services_of_tenant(
    lib: LibraryView,
    name: Seq<char>,
    services: Seq<(Seq<char>, ServiceView)>,
    tenant: Seq<char>,
)
    requires
        keyed(lib),
        finite_library(lib),
        lib.contains_key(name),
        forall|i: int|
            0 <= i < services.len() ==> lib[name].contains_key((#[trigger] services[i]).0)
                && lib[name][services[i].0] == services[i].1,
    ensures
        services_entries(services, Some(tenant)) == of_tenant(
            services_entries(services, None),
            tenant,
        ),
    decreases services.len(),
{
    if services.len() > 0 {
        let init = services.drop_last();
        let (svc, mocks) = services[services.len() - 1];
        assert forall|i: int| 0 <= i < init.len() implies lib[name].contains_key(
            (#[trigger] init[i]).0,
        ) && lib[name][init[i].0] == init[i].1 by {
            assert(init[i] == services[i]);
        }
        lemma_services_of_tenant(lib, name, init, tenant);
        assert(lib[name].contains_key(svc) && lib[name][svc] == mocks);
        assert forall|key: (Seq<char>, Seq<char>, Seq<char>)| #[trigger]
            mocks.contains_key(key) implies entry_key(mocks[key]) == key by {
            assert(segment_has(lib[name], svc, key));
        }
        lemma_service_of_tenant(mocks, tenant);
        lemma_of_tenant_concat(
            services_entries(init, None),
            service_entries(mocks, None),
            tenant,
        );
    }
}

proof fn lemma_segments_of_tenant(
    lib: LibraryView,
    segs: Seq<(Seq<char>, SegmentView)>,
    tenant: Seq<char>,
)
    requires
        keyed(lib),
        finite_library(lib),
        forall|i: int|
            0 <= i < segs.len() ==> lib.contains_key((#[trigger] segs[i]).0) && lib[segs[i].0]
                == segs[i].1,
    ensures
        all_entries_in(segs, Some(tenant)) == of_tenant(all_entries_in(segs, None), tenant),
    decreases segs.len(),
{
    if segs.len() > 0 {
        let init = segs.drop_last();
        let (name, seg) = segs[segs.len() - 1];
        assert forall|i: int| 0 <= i < init.len() implies lib.contains_key((#[trigger] init[i]).0)
            && lib[init[i].0] == init[i].1 by {
            assert(init[i] == segs[i]);
        }
        lemma_segments_of_tenant(lib, init, tenant);
        assert(lib.contains_key(name) && lib[name] == seg);
        let services = ordmap::sorted_pairs::<String, ServiceView>(seg);
        ordmap::lemma_finite_map_has_pairs::<String, ServiceView>(seg);
        ordmap::lemma_pairs_map::<String, ServiceView>(services);
        assert forall|i: int| 0 <= i < services.len() implies lib[name].contains_key(
            (#[trigger] services[i]).0,
        ) && lib[name][services[i].0] == services[i].1 by {
        }
        lemma_services_of_tenant(lib, name, services, tenant);
        lemma_of_tenant_concat(
            all_entries_in(init, None),
            services_entries(services, None),
            tenant,
        );
    }
}

/// The list of a tenant holds just the entries of that tenant in the list of all.
pub proof fn law_tenant_list_is_part_of_all(lib: LibraryView, tenant: Seq<char>)
    requires
        keyed(lib),
        finite_library(lib),
    ensures
        ({
            let segs = ordmap::sorted_pairs::<String, SegmentView>(lib);
            all_entries_in(segs, Some(tenant)) == of_tenant(all_entries_in(segs, None), tenant)
        }),
{
    let segs = ordmap::sorted_pairs::<String, SegmentView>(lib);
    ordmap::lemma_finite_map_has_pairs::<String, SegmentView>(lib);
    ordmap::lemma_pairs_map::<String, SegmentView>(segs);
    lemma_segments_of_tenant(lib, segs, tenant);
}

/// The lists of the entries of these tenants, one after the other.
pub open spec fn entries_by_tenant(
    segs: Seq<(Seq<char>, SegmentView)>,
    tenants: Seq<Seq<char>>,
) -> Seq<MockEntryView>
    decreases tenants.len(),
{
    if tenants.len() == 0 {
        Seq::empty()
    } else {
        entries_by_tenant(segs, tenants.drop_last()) + all_entries_in(segs, Some(tenants.last()))
    }
}

/// The entries of these tenants in a list, tenant after tenant.
spec fn sorted_by_tenant(es: Seq<MockEntryView>, tenants: Seq<Seq<char>>) -> Seq<MockEntryView>
    decreases tenants.len(),
{
    if tenants.len() == 0 {
        Seq::empty()
    } else {
        sorted_by_tenant(es, tenants.drop_last()) + of_tenant(es, tenants.last())
    }
}

proof fn lemma_one_more_entry(es: Seq<MockEntryView>, tenants: Seq<Seq<char>>)
    requires
        es.len() > 0,
        tenants.no_duplicates(),
    ensures
        sorted_by_tenant(es, tenants).to_multiset() =~= (if tenants.contains(es.last().tenant) {
            sorted_by_tenant(es.drop_last(), tenants).to_multiset().insert(es.last())
        } else {
            sorted_by_tenant(es.drop_last(), tenants).to_multiset()
        }),
    decreases tenants.len(),
{
    broadcast use vstd::seq_lib::group_to_multiset_ensures;

    let init = es.drop_last();
    let e = es.last();
    if tenants.len() > 0 {
        let rest = tenants.drop_last();
        let last = tenants[tenants.len() - 1];
        assert(rest.no_duplicates());
        lemma_one_more_entry(es, rest);
        lemma_concat_multiset(sorted_by_tenant(es, rest), of_tenant(es, last));
        lemma_concat_multiset(sorted_by_tenant(init, rest), of_tenant(init, last));
        if last == e.tenant {
            if rest.contains(last) {
                let i = rest.index_of(last);
                assert(tenants[i] == last);
            }
            assert(of_tenant(es, last) == of_tenant(init, last).push(e));
        } else {
            if tenants.contains(e.tenant) {
                let i = tenants.index_of(e.tenant);
                assert(rest[i] == e.tenant);
            }
            if rest.contains(e.tenant) {
                let i = rest.index_of(e.tenant);
                assert(tenants[i] == e.tenant);
            }
        }
    }
}

proof fn lemma_sorted_by_tenant(es: Seq<MockEntryView>, tenants: Seq<Seq<char>>)
    requires
        tenants.no_duplicates(),
        forall|i: int| 0 <= i < es.len() ==> tenants.contains((#[trigger] es[i]).tenant),
    ensures
        sorted_by_tenant(es, tenants).to_multiset() =~= es.to_multiset(),
    decreases es.len(),
{
    broadcast use vstd::seq_lib::group_to_multiset_ensures;

    if es.len() == 0 {
        lemma_sorted_of_none(es, tenants);
        assert(es =~= Seq::empty());
    } else {
        let init = es.drop_last();
        assert forall|i: int| 0 <= i < init.len() implies tenants.contains(
            (#[trigger] init[i]).tenant,
        ) by {
            assert(init[i] == es[i]);
        }
        lemma_sorted_by_tenant(init, tenants);
        lemma_one_more_entry(es, tenants);
        assert(tenants.contains(es[es.len() - 1].tenant));
        assert(init.push(es.last()) =~= es);
    }
}

proof fn lemma_sorted_of_none(es: Seq<MockEntryView>, tenants: Seq<Seq<char>>)
    requires
        es.len() == 0,
    ensures
        sorted_by_tenant(es, tenants) == Seq::<MockEntryView>::empty(),
    decreases tenants.len(),
{
    if tenants.len() > 0 {
        lemma_sorted_of_none(es, tenants.drop_last());
        assert(sorted_by_tenant(es, tenants) =~= Seq::empty());
    }
}

proof fn lemma_by_tenant(lib: LibraryView, tenants: Seq<Seq<char>>)
    requires
        keyed(lib),
        finite_library(lib),
    ensures
        ({
            let segs = ordmap::sorted_pairs::<String, SegmentView>(lib);
            entries_by_tenant(segs, tenants) == sorted_by_tenant(
                all_entries_in(segs, None),
                tenants,
            )
        }),
    decreases tenants.len(),
{
    if tenants.len() > 0 {
        lemma_by_tenant(lib, tenants.drop_last());
        law_tenant_list_is_part_of_all(lib, tenants.last());
    }
}

/// The lists of all tenants are together the list of all entries, in some order, and
/// have as many entries as there are.
pub proof fn law_tenants_share_all_entries(lib: LibraryView, tenants: Seq<Seq<char>>)
    requires
        keyed(lib),
        finite_library(lib),
        tenants.no_duplicates(),
        forall|name: Seq<char>, svc: Seq<char>, key: (Seq<char>, Seq<char>, Seq<char>)|
            lib.contains_key(name) && #[trigger] segment_has(lib[name], svc, key)
                ==> tenants.contains(key.2),
    ensures
        ({
            let segs = ordmap::sorted_pairs::<String, SegmentView>(lib);
            &&& entries_by_tenant(segs, tenants).to_multiset() == all_entries_in(
                segs,
                None,
            ).to_multiset()
            &&& entries_by_tenant(segs, tenants).len() == library_count(lib)
        }),
{
    let segs = ordmap::sorted_pairs::<String, SegmentView>(lib);
    let all = all_entries_in(segs, None);
    ordmap::lemma_finite_map_has_pairs::<String, SegmentView>(lib);
    ordmap::lemma_pairs_map::<String, SegmentView>(segs);
    lemma_all_have_tenant(lib, segs, tenants);
    lemma_sorted_by_tenant(all, tenants);
    lemma_by_tenant(lib, tenants);
    law_all_entries_are_counted(lib);
    vstd::seq_lib::to_multiset_len(all);
    vstd::seq_lib::to_multiset_len(entries_by_tenant(segs, tenants));
}

proof fn lemma_all_have_tenant(
    lib: LibraryView,
    segs: Seq<(Seq<char>, SegmentView)>,
    tenants: Seq<Seq<char>>,
)
    requires
        keyed(lib),
        finite_library(lib),
        forall|i: int|
            0 <= i < segs.len() ==> lib.contains_key((#[trigger] segs[i]).0) && lib[segs[i].0]
                == segs[i].1,
        forall|name: Seq<char>, svc: Seq<char>, key: (Seq<char>, Seq<char>, Seq<char>)|
            lib.contains_key(name) && #[trigger] segment_has(lib[name], svc, key)
                ==> tenants.contains(key.2),
    ensures
        forall|i: int|
            0 <= i < all_entries_in(segs, None).len() ==> tenants.contains(
                (#[trigger] all_entries_in(segs, None)[i]).tenant,
            ),
    decreases segs.len(),
{
    if segs.len() > 0 {
        let init = segs.drop_last();
        let (name, seg) = segs[segs.len() - 1];
        assert forall|i: int| 0 <= i < init.len() implies lib.contains_key((#[trigger] init[i]).0)
            && lib[init[i].0] == init[i].1 by {
            assert(init[i] == segs[i]);
        }
        lemma_all_have_tenant(lib, init, tenants);
        assert(lib.contains_key(name) && lib[name] == seg);
        let services = ordmap::sorted_pairs::<String, ServiceView>(seg);
        ordmap::lemma_finite_map_has_pairs::<String, ServiceView>(seg);
        ordmap::lemma_pairs_map::<String, ServiceView>(services);
        assert forall|i: int| 0 <= i < services.len() implies lib[name].contains_key(
            (#[trigger] services[i]).0,
        ) && lib[name][services[i].0] == services[i].1 by {
        }
        lemma_services_have_tenant(lib, name, services, tenants);
        let before = all_entries_in(init, None);
        let r = all_entries_in(segs, None);
        assert forall|i: int| 0 <= i < r.len() implies tenants.contains(
            (#[trigger] r[i]).tenant,
        ) by {
            if i < before.len() {
                assert(r[i] == before[i]);
            } else {
                assert(r[i] == services_entries(services, None)[i - before.len()]);
            }
        }
    }
}

proof fn lemma_services_have_tenant(
    lib: LibraryView,
    name: Seq<char>,
    services: Seq<(Seq<char>, ServiceView)>,
    tenants: Seq<Seq<char>>,
)
    requires
        keyed(lib),
        finite_library(lib),
        lib.contains_key(name),
        forall|i: int|
            0 <= i < services.len() ==> lib[name].contains_key((#[trigger] services[i]).0)
                && lib[name][services[i].0] == services[i].1,
        forall|n: Seq<char>, svc: Seq<char>, key: (Seq<char>, Seq<char>, Seq<char>)|
            lib.contains_key(n) && #[trigger] segment_has(lib[n], svc, key) ==> tenants.contains(
                key.2,
            ),
    ensures
        forall|i: int|
            0 <= i < services_entries(services, None).len() ==> tenants.contains(
                (#[trigger] services_entries(services, None)[i]).tenant,
            ),
    decreases services.len(),
{
    if services.len() > 0 {
        let init = services.drop_last();
        let (svc, mocks) = services[services.len() - 1];
        assert forall|i: int| 0 <= i < init.len() implies lib[name].contains_key(
            (#[trigger] init[i]).0,
        ) && lib[name][init[i].0] == init[i].1 by {
            assert(init[i] == services[i]);
        }
        lemma_services_have_tenant(lib, name, init, tenants);
        assert(lib[name].contains_key(svc) && lib[name][svc] == mocks);
        let ps = ordmap::sorted_pairs::<(String, String, String), MockEntryView>(mocks);
        ordmap::lemma_finite_map_has_pairs::<(String, String, String), MockEntryView>(mocks);
        ordmap::lemma_pairs_map::<(String, String, String), MockEntryView>(ps);
        lemma_all_tenants(ps);
        let before = services_entries(init, None);
        let r = services_entries(services, None);
        assert forall|i: int| 0 <= i < r.len() implies tenants.contains(
            (#[trigger] r[i]).tenant,
        ) by {
            if i < before.len() {
                assert(r[i] == before[i]);
            } else {
                let j = i - before.len();
                assert(r[i] == ps[j].1);
                assert(segment_has(lib[name], svc, ps[j].0));
                assert(entry_key(lib[name][svc][ps[j].0]) == ps[j].0);
            }
        }
    }
}

// ─── Loading ─────────────────────────────────────────────────────────────────

/// The name and the content of the segment of a file with these entries. Files that
/// are no mock files, and files without an entry, have none.
pub open spec fn file_segment(file: Seq<char>, es: Seq<MockEntryView>) -> Option<
    (Seq<char>, SegmentView),
> {
    match files::mock_file_service(file) {
        Some(svc) => match segment_of(svc, es) {
            Some(seg) => Some((svc, seg)),
            None => None,
        },
        None => None,
    }
}

/// The name and the content of the segment of a file with these entries.
pub fn reload_segment(file: &str, entries: Vec<MockEntry>) -> (r: Option<(String, MockSegment)>)
    ensures
        r.deep_view() == file_segment(file@, entries.deep_view()),
{
    match service_of_mock_file(file) {
        Some(svc) => match build_segment(svc.as_str(), entries) {
            Some(seg) => Some((svc, seg)),
            None => None,
        },
        None => None,
    }
}

/// The library after a file has changed to these entries: with the segment of the
/// file rebuilt, or without it if there is no entry. Files that are no mock files
/// change nothing.
pub open spec fn file_reloaded(
    lib: LibraryView,
    file: Seq<char>,
    es: Seq<MockEntryView>,
) -> LibraryView {
    match files::mock_file_service(file) {
        Some(svc) => match segment_of(svc, es) {
            Some(seg) => lib.insert(svc, seg),
            None => lib.remove(svc),
        },
        None => lib,
    }
}

/// Takes over a file that has changed to these entries. Returns the name of its
/// segment if it is a mock file.
pub fn reload_one_file(library: &mut MockLibrary, file: &str, entries: Vec<MockEntry>) -> (r:
    Option<String>)
    ensures
        final(library).deep_view() == file_reloaded(
            old(library).deep_view(),
            file@,
            entries.deep_view(),
        ),
        r.deep_view() == files::mock_file_service(file@),
{
    match service_of_mock_file(file) {
        Some(svc) => {
            let segment = build_segment(svc.as_str(), entries);
            library.replace_segment(svc.as_str(), segment);
            Some(svc)
        },
        None => None,
    }
}

/// The library of these files with their entries.
pub open spec fn library_of_files(fs: Seq<(Seq<char>, Seq<MockEntryView>)>) -> LibraryView
    decreases fs.len(),
{
    if fs.len() == 0 {
        Map::empty()
    } else {
        let before = library_of_files(fs.drop_last());
        match file_segment(fs.last().0, fs.last().1) {
            Some((svc, seg)) => before.insert(svc, seg),
            None => before,
        }
    }
}

/// The library of these files with their entries.
pub fn load_all_service_mocks(fs: Vec<(String, Vec<MockEntry>)>) -> (r: MockLibrary)
    ensures
        r.deep_view() == library_of_files(fs.deep_view()),
{
    let ghost fv = fs.deep_view();
    let ghost all = fs@;
    let mut library = MockLibrary::new();
    assert(fv.take(0) =~= Seq::empty());
    for f in it: fs.into_iter()
        invariant
            it.seq() == all,
            fv.len() == all.len(),
            forall|i: int| 0 <= i < all.len() ==> #[trigger] fv[i] == all[i].deep_view(),
            library.deep_view() == library_of_files(fv.take(it.index() as int)),
    {
        let ghost v = f.deep_view();
        proof {
            let i = it.index() as int;
            let t = fv.take(i + 1);
            assert(t.drop_last() =~= fv.take(i));
            assert(t.last() == fv[i]);
            assert(fv[i] == v);
        }
        let (name, entries) = f;
        if let Some((svc, seg)) = reload_segment(name.as_str(), entries) {
            library.replace_segment(svc.as_str(), Some(seg));
        }
    }
    assert(fv.take(fv.len() as int) =~= fv);
    library
}

/// A file that has not changed again is reloaded to the same library.
pub proof fn law_reload_is_idempotent(lib: LibraryView, file: Seq<char>, es: Seq<MockEntryView>)
    ensures
        file_reloaded(file_reloaded(lib, file, es), file, es) == file_reloaded(lib, file, es),
{
    let once = file_reloaded(lib, file, es);
    assert(file_reloaded(once, file, es) =~= once);
}

proof fn lemma_untouched_segment(fs: Seq<(Seq<char>, Seq<MockEntryView>)>, svc: Seq<char>)
    requires
        forall|i: int|
            0 <= i < fs.len() ==> files::mock_file_service((#[trigger] fs[i]).0) != Some(svc),
    ensures
        !library_of_files(fs).contains_key(svc),
    decreases fs.len(),
{
    if fs.len() > 0 {
        let init = fs.drop_last();
        assert forall|i: int| 0 <= i < init.len() implies files::mock_file_service(
            (#[trigger] init[i]).0,
        ) != Some(svc) by {
            assert(init[i] == fs[i]);
        }
        lemma_untouched_segment(init, svc);
        assert(files::mock_file_service(fs[fs.len() - 1].0) != Some(svc));
    }
}

/// Reloading one changed file gives the library that loading all files anew gives, if
/// no other file has the same segment.
pub proof fn law_reload_is_load(
    fs: Seq<(Seq<char>, Seq<MockEntryView>)>,
    k: int,
    es: Seq<MockEntryView>,
)
    requires
        0 <= k < fs.len(),
        forall|i: int|
            0 <= i < fs.len() && i != k ==> files::mock_file_service((#[trigger] fs[i]).0) is None
                || files::mock_file_service(fs[i].0) != files::mock_file_service(fs[k].0),
    ensures
        file_reloaded(library_of_files(fs), fs[k].0, es) == library_of_files(
            fs.update(k, (fs[k].0, es)),
        ),
    decreases fs.len(),
{
    let changed = fs.update(k, (fs[k].0, es));
    let init = fs.drop_last();
    let file = fs[k].0;
    if k == fs.len() - 1 {
        assert(changed.drop_last() =~= init);
        if let Some(svc) = files::mock_file_service(file) {
            assert forall|i: int| 0 <= i < init.len() implies files::mock_file_service(
                (#[trigger] init[i]).0,
            ) != Some(svc) by {
                assert(init[i] == fs[i]);
            }
            lemma_untouched_segment(init, svc);
        }
        assert(file_reloaded(library_of_files(fs), file, es) =~= library_of_files(changed));
    } else {
        assert(changed.drop_last() =~= init.update(k, (init[k].0, es)));
        assert(changed.last() == fs.last());
        assert forall|i: int| 0 <= i < init.len() && i != k implies files::mock_file_service(
            (#[trigger] init[i]).0,
        ) is None || files::mock_file_service(init[i].0) != files::mock_file_service(
            init[k].0,
        ) by {
            assert(init[i] == fs[i]);
        }
        law_reload_is_load(init, k, es);
        assert(files::mock_file_service(fs[fs.len() - 1].0) is None || files::mock_file_service(
            fs[fs.len() - 1].0,
        ) != files::mock_file_service(file));
        assert(file_reloaded(library_of_files(fs), file, es) =~= library_of_files(changed));
    }
}

/// A reload keeps every entry under its own key.
pub proof fn law_reload_keeps_keyed(lib: LibraryView, file: Seq<char>, es: Seq<MockEntryView>)
    requires
        keyed(lib),
    ensures
        keyed(file_reloaded(lib, file, es)),
{
    if let Some(svc) = files::mock_file_service(file) {
        if es.len() > 0 {
            law_segment_keeps_keyed(lib, svc, svc, es);
        } else {
            let after = lib.remove(svc);
            assert forall|name: Seq<char>, s: Seq<char>, key: (Seq<char>, Seq<char>, Seq<char>)|
                after.contains_key(name) && #[trigger] segment_has(
                    after[name],
                    s,
                    key,
                ) implies entry_key(after[name][s][key]) == key by {
                assert(segment_has(lib[name], s, key));
            }
        }
    }
}

/// A library that is loaded from files has every entry under its own key.
pub proof fn law_loaded_is_keyed(fs: Seq<(Seq<char>, Seq<MockEntryView>)>)
    ensures
        keyed(library_of_files(fs)),
    decreases fs.len(),
{
    if fs.len() > 0 {
        law_loaded_is_keyed(fs.drop_last());
        let es = fs.last().1;
        if let Some(svc) = files::mock_file_service(fs.last().0) {
            if es.len() > 0 {
                law_segment_keeps_keyed(library_of_files(fs.drop_last()), svc, svc, es);
            }
        }
    }
}

/// A mock file is taken over: after it changed to these entries the service that it is
/// named after answers with the last entry for each method, URI and tenant in it, and an
/// entry that is no longer in it is gone from the segment of the file.
pub proof fn law_changed_file_is_taken_over(
    lib: LibraryView,
    svc: Seq<char>,
    es: Seq<MockEntryView>,
    i: int,
)
    requires
        0 <= i < es.len(),
        forall|j: int|
            i < j < es.len() ==> !((#[trigger] es[j]).request.method == es[i].request.method
                && es[j].request.uri == es[i].request.uri && es[j].tenant == es[i].tenant),
    ensures
        ({
            let after = file_reloaded(lib, "mock_"@ + svc + ".jsonl"@, es);
            &&& library_entry(after, svc, es[i].request.method, es[i].request.uri, es[i].tenant)
                == Some(es[i])
            &&& after.contains_key(svc)
            &&& after[svc].contains_key(svc)
            &&& forall|m: Seq<char>, u: Seq<char>, t: Seq<char>| #[trigger]
                after[svc][svc].contains_key((m, u, t)) ==> exists|j: int|
                    0 <= j < es.len() && (#[trigger] es[j]).request.method == m
                        && es[j].request.uri == u && es[j].tenant == t
            &&& forall|other: Seq<char>|
                other != svc ==> (#[trigger] after.contains_key(other) == lib.contains_key(other))
                    && (lib.contains_key(other) ==> after[other] == lib[other])
        }),
{
    files::law_mock_file_round_trip(svc);
    assert forall|j: int| i < j < es.len() implies entry_key(#[trigger] es[j]) != entry_key(
        es[i],
    ) by {}
    law_last_entry_wins(es, i);
    lemma_with_entries_has(es);
    let after = file_reloaded(lib, "mock_"@ + svc + ".jsonl"@, es);
    assert(segment_has(after[svc], svc, entry_key(es[i])));
    assert forall|m: Seq<char>, u: Seq<char>, t: Seq<char>| #[trigger]
        after[svc][svc].contains_key((m, u, t)) implies exists|j: int|
        0 <= j < es.len() && (#[trigger] es[j]).request.method == m && es[j].request.uri == u
            && es[j].tenant == t by {
        let j = choose|j: int| 0 <= j < es.len() && entry_key(#[trigger] es[j]) == (m, u, t);
        assert(es[j].request.method == m);
    }
}

proof fn lemma_with_entries_has(es: Seq<MockEntryView>)
    ensures
        forall|k: (Seq<char>, Seq<char>, Seq<char>)| #[trigger]
            with_entries(Map::empty(), es).contains_key(k) ==> exists|j: int|
                0 <= j < es.len() && entry_key(#[trigger] es[j]) == k,
    decreases es.len(),
{
    if es.len() > 0 {
        let init = es.drop_last();
        lemma_with_entries_has(init);
        assert forall|k: (Seq<char>, Seq<char>, Seq<char>)| #[trigger]
            with_entries(Map::empty(), es).contains_key(k) implies exists|j: int|
            0 <= j < es.len() && entry_key(#[trigger] es[j]) == k by {
            if k == entry_key(es.last()) {
                assert(entry_key(es[es.len() - 1]) == k);
            } else {
                assert(with_entries(Map::empty(), init).contains_key(k));
                let j = choose|j: int| 0 <= j < init.len() && entry_key(#[trigger] init[j]) == k;
                assert(entry_key(es[j]) == k);
            }
        }
    }
}

/// A mock file without an entry takes the segment of its service away; a file that is no
/// mock file changes nothing.
pub proof fn law_emptied_file_is_taken_away(
    lib: LibraryView,
    svc: Seq<char>,
    file: Seq<char>,
    es: Seq<MockEntryView>,
)
    requires
        forall|s: Seq<char>| file != #[trigger] ("mock_"@ + s + ".jsonl"@),
    ensures
        file_reloaded(lib, "mock_"@ + svc + ".jsonl"@, Seq::empty()) == lib.remove(svc),
        file_reloaded(lib, file, es) == lib,
{
    files::law_mock_file_round_trip(svc);
    if files::mock_file_service(file) is Some {
        let s = files::mock_file_service(file)->0;
        files::law_mock_file_names(s, file);
        assert(file == "mock_"@ + s + ".jsonl"@);
    }
}

/// An entry belongs to the service that it names, and to `_global` if it names none.
pub proof fn law_service_of_entry(e: MockEntryView)
    ensures
        e.service_id is Some ==> entry_service(e) == e.service_id->0,
        e.service_id is None ==> entry_service(e) == "_global"@,
        entry_key(e).0 == e.request.method,
        entry_key(e).1 == e.request.uri,
        entry_key(e).2 == e.tenant,
{
}

/// An entry that is put anywhere under a service stands there under its method, URI and
/// tenant, and everything else stays where it was.
pub proof fn law_insert_puts_one(
    lib: LibraryView,
    name: Seq<char>,
    svc: Seq<char>,
    e: MockEntryView,
    n2: Seq<char>,
    s2: Seq<char>,
    k2: (Seq<char>, Seq<char>, Seq<char>),
)
    ensures
        ({
            let after = library_with(lib, name, svc, e);
            let key = (e.request.method, e.request.uri, e.tenant);
            &&& after.contains_key(name)
            &&& segment_has(after[name], svc, key)
            &&& after[name][svc][key] == e
            &&& (n2, s2, k2) != (name, svc, key) ==> {
                let had = lib.contains_key(n2) && lib[n2].contains_key(s2)
                    && lib[n2][s2].contains_key(k2);
                let has = after.contains_key(n2) && after[n2].contains_key(s2)
                    && after[n2][s2].contains_key(k2);
                has == had && (had ==> after[n2][s2][k2] == lib[n2][s2][k2])
            }
        }),
{
}

/// The library with an entry that was created at runtime.
pub open spec fn with_created(lib: LibraryView, e: MockEntryView) -> LibraryView {
    library_with(lib, GLOBAL_TENANT@, entry_service(e), e)
}

/// An entry that was created at runtime stands in the segment `_global` under the service
/// that it names, or `_global` if it names none, and is found if no other segment has one
/// for its service, method, URI and tenant.
pub proof fn law_created_entry_is_found(lib: LibraryView, e: MockEntryView)
    requires
        lib.dom().finite(),
        forall|n: Seq<char>| #[trigger]
            lib.contains_key(n) && n != "_global"@ ==> !segment_has(
                lib[n],
                entry_service(e),
                entry_key(e),
            ),
    ensures
        library_entry(
            with_created(lib, e),
            entry_service(e),
            e.request.method,
            e.request.uri,
            e.tenant,
        ) == Some(e),
{
    let after = with_created(lib, e);
    let svc = entry_service(e);
    let key = entry_key(e);
    law_lookup(after, svc, e.request.method, e.request.uri, e.tenant);
    assert(key == (e.request.method, e.request.uri, e.tenant));
    assert(after.contains_key("_global"@));
    assert(segment_has(after["_global"@], svc, key));
    assert(library_entry(after, svc, e.request.method, e.request.uri, e.tenant) is Some);
    let name = choose|name: Seq<char>| #[trigger]
        answering_segment(after, name, svc, key) && library_entry(
            after,
            svc,
            e.request.method,
            e.request.uri,
            e.tenant,
        ) == Some(after[name][svc][key]);
    if name != "_global"@ {
        assert(lib.contains_key(name));
    }
}

/// The entries of a library that is built from a list stand under their services: of those
/// with one method, URI and tenant the last one.
pub proof fn law_last_listed_entry_counts(es: Seq<MockEntryView>, i: int)
    requires
        0 <= i < es.len(),
        forall|j: int|
            i < j < es.len() ==> !(entry_service(#[trigger] es[j]) == entry_service(es[i])
                && entry_key(es[j]) == entry_key(es[i])),
    ensures
        segment_has(segment_from(es), entry_service(es[i]), entry_key(es[i])),
        segment_from(es)[entry_service(es[i])][entry_key(es[i])] == es[i],
    decreases es.len(),
{
    if i < es.len() - 1 {
        let init = es.drop_last();
        assert(!(entry_service(es[es.len() - 1]) == entry_service(es[i]) && entry_key(
            es[es.len() - 1],
        ) == entry_key(es[i])));
        assert forall|j: int| i < j < init.len() implies !(entry_service(#[trigger] init[j])
            == entry_service(init[i]) && entry_key(init[j]) == entry_key(init[i])) by {
            assert(init[j] == es[j]);
        }
        law_last_listed_entry_counts(init, i);
    }
}

} // verus!
