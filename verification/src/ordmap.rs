//! A map over a vector of entries in ascending key order.
use crate::dup::Dup;
use crate::text::text_before;
use crate::text;
use vstd::prelude::*;

verus! {

/// How one key stands to another.
pub enum KeyOrder {
    Less,
    Equal,
    Greater,
}

/// A key with a total order on its view.
pub trait OrdKey: View + Sized {
    spec fn key_lt(a: Self::V, b: Self::V) -> bool;

    proof fn key_lt_irreflexive(a: Self::V)
        ensures
            !Self::key_lt(a, a),
    ;

    proof fn key_lt_transitive(a: Self::V, b: Self::V, c: Self::V)
        requires
            Self::key_lt(a, b),
            Self::key_lt(b, c),
        ensures
            Self::key_lt(a, c),
    ;

    proof fn key_lt_total(a: Self::V, b: Self::V)
        ensures
            a == b || Self::key_lt(a, b) || Self::key_lt(b, a),
    ;

    fn key_order(&self, other: &Self) -> (r: KeyOrder)
        ensures
            match r {
                KeyOrder::Less => Self::key_lt(self@, other@),
                KeyOrder::Equal => self@ == other@,
                KeyOrder::Greater => Self::key_lt(other@, self@),
            },
    ;

    fn key_copy(&self) -> (r: Self)
        ensures
            r@ == self@,
    ;
}

impl OrdKey for String {
    open spec fn key_lt(a: Seq<char>, b: Seq<char>) -> bool {
        text::text_lt(a, b)
    }

    proof fn key_lt_irreflexive(a: Self::V) {
        text::lemma_text_lt_irreflexive(a);
    }

    proof fn key_lt_transitive(a: Self::V, b: Self::V, c: Self::V) {
        text::lemma_text_lt_transitive(a, b, c);
    }

    proof fn key_lt_total(a: Self::V, b: Self::V) {
        text::lemma_text_lt_total(a, b);
    }

    fn key_order(&self, other: &Self) -> (r: KeyOrder) {
        if *self == *other {
            KeyOrder::Equal
        } else if text_before(self.as_str(), other.as_str()) {
            KeyOrder::Less
        } else {
            proof {
                text::lemma_text_lt_total(self@, other@);
            }
            KeyOrder::Greater
        }
    }

    fn key_copy(&self) -> (r: Self) {
        self.clone()
    }
}

impl<A: OrdKey, B: OrdKey> OrdKey for (A, B) {
    open spec fn key_lt(a: (A::V, B::V), b: (A::V, B::V)) -> bool {
        A::key_lt(a.0, b.0) || (a.0 == b.0 && B::key_lt(a.1, b.1))
    }

    proof fn key_lt_irreflexive(a: Self::V) {
        A::key_lt_irreflexive(a.0);
        B::key_lt_irreflexive(a.1);
    }

    proof fn key_lt_transitive(a: Self::V, b: Self::V, c: Self::V) {
        if A::key_lt(a.0, b.0) && A::key_lt(b.0, c.0) {
            A::key_lt_transitive(a.0, b.0, c.0);
        }
        if a.0 == b.0 && b.0 == c.0 && B::key_lt(a.1, b.1) && B::key_lt(b.1, c.1) {
            B::key_lt_transitive(a.1, b.1, c.1);
        }
    }

    proof fn key_lt_total(a: Self::V, b: Self::V) {
        A::key_lt_total(a.0, b.0);
        B::key_lt_total(a.1, b.1);
    }

    fn key_order(&self, other: &Self) -> (r: KeyOrder) {
        match self.0.key_order(&other.0) {
            KeyOrder::Less => KeyOrder::Less,
            KeyOrder::Greater => KeyOrder::Greater,
            KeyOrder::Equal => self.1.key_order(&other.1),
        }
    }

    fn key_copy(&self) -> (r: Self) {
        (self.0.key_copy(), self.1.key_copy())
    }
}

impl<A: OrdKey, B: OrdKey, C: OrdKey> OrdKey for (A, B, C) {
    open spec fn key_lt(a: (A::V, B::V, C::V), b: (A::V, B::V, C::V)) -> bool {
        A::key_lt(a.0, b.0) || (a.0 == b.0 && (B::key_lt(a.1, b.1) || (a.1 == b.1 && C::key_lt(
            a.2,
            b.2,
        ))))
    }

    proof fn key_lt_irreflexive(a: Self::V) {
        A::key_lt_irreflexive(a.0);
        B::key_lt_irreflexive(a.1);
        C::key_lt_irreflexive(a.2);
    }

    proof fn key_lt_transitive(a: Self::V, b: Self::V, c: Self::V) {
        if A::key_lt(a.0, b.0) && A::key_lt(b.0, c.0) {
            A::key_lt_transitive(a.0, b.0, c.0);
        }
        if B::key_lt(a.1, b.1) && B::key_lt(b.1, c.1) {
            B::key_lt_transitive(a.1, b.1, c.1);
        }
        if C::key_lt(a.2, b.2) && C::key_lt(b.2, c.2) {
            C::key_lt_transitive(a.2, b.2, c.2);
        }
    }

    proof fn key_lt_total(a: Self::V, b: Self::V) {
        A::key_lt_total(a.0, b.0);
        B::key_lt_total(a.1, b.1);
        C::key_lt_total(a.2, b.2);
    }

    fn key_order(&self, other: &Self) -> (r: KeyOrder) {
        match self.0.key_order(&other.0) {
            KeyOrder::Less => KeyOrder::Less,
            KeyOrder::Greater => KeyOrder::Greater,
            KeyOrder::Equal => match self.1.key_order(&other.1) {
                KeyOrder::Less => KeyOrder::Less,
                KeyOrder::Greater => KeyOrder::Greater,
                KeyOrder::Equal => self.2.key_order(&other.2),
            },
        }
    }

    fn key_copy(&self) -> (r: Self) {
        (self.0.key_copy(), self.1.key_copy(), self.2.key_copy())
    }
}

/// The keys of `s` are in strictly ascending order.
pub open spec fn ascending<K: OrdKey, V>(s: Seq<(K::V, V)>) -> bool {
    forall|i: int, j: int|
        #![trigger s[i], s[j]]
        0 <= i < j < s.len() ==> K::key_lt(s[i].0, s[j].0)
}

/// The position of `key` among the entries `s`.
pub open spec fn key_index<Q, V>(s: Seq<(Q, V)>, key: Q) -> int {
    choose|i: int| 0 <= i < s.len() && #[trigger] s[i].0 == key
}

/// Whether an entry of `s` has the key `key`.
pub open spec fn has_key<Q, V>(s: Seq<(Q, V)>, key: Q) -> bool {
    exists|i: int| 0 <= i < s.len() && #[trigger] s[i].0 == key
}

/// The map that the entries `s` stand for.
pub open spec fn pairs_map<Q, V>(s: Seq<(Q, V)>) -> Map<Q, V> {
    Map::new(|k: Q| has_key(s, k), |k: Q| s[key_index(s, k)].1)
}

/// Ascending entries hold each key once, so every entry is found under its key,
/// and there are as many keys as entries.
pub proof fn lemma_pairs_map<K: OrdKey, V>(s: Seq<(K::V, V)>)
    requires
        ascending::<K, V>(s),
    ensures
        forall|i: int|
            #![trigger s[i]]
            0 <= i < s.len() ==> pairs_map(s).contains_key(s[i].0) && pairs_map(s)[s[i].0] == s[i].1,
        pairs_map(s).dom().finite(),
        pairs_map(s).dom().len() == s.len(),
    decreases s.len(),
{
    assert forall|i: int|
        #![trigger s[i]]
        0 <= i < s.len() implies pairs_map(s).contains_key(s[i].0) && pairs_map(s)[s[i].0]
        == s[i].1 by {
        assert(has_key(s, s[i].0));
        let j = key_index(s, s[i].0);
        assert(s[j].0 == s[i].0);
        K::key_lt_irreflexive(s[i].0);
        assert(i == j);
    }
    if s.len() == 0 {
        assert(pairs_map(s).dom() =~= Set::empty());
    } else {
        let t = s.drop_last();
        assert(ascending::<K, V>(t)) by {
            assert forall|i: int, j: int|
                #![trigger t[i], t[j]]
                0 <= i < j < t.len() implies K::key_lt(t[i].0, t[j].0) by {
                assert(t[i] == s[i] && t[j] == s[j]);
            }
        }
        lemma_pairs_map::<K, V>(t);
        let last = s.last().0;
        assert(!has_key(t, last)) by {
            if has_key(t, last) {
                let i = key_index(t, last);
                assert(t[i] == s[i]);
                assert(s[s.len() - 1].0 == last);
                K::key_lt_irreflexive(last);
            }
        }
        assert(pairs_map(s).dom() =~= pairs_map(t).dom().insert(last)) by {
            assert forall|k: K::V| has_key(s, k) == (has_key(t, k) || k == last) by {
                if has_key(s, k) {
                    let i = key_index(s, k);
                    assert(s[i].0 == k);
                    if i < t.len() {
                        assert(t[i].0 == k);
                    }
                }
                if has_key(t, k) {
                    let i = key_index(t, k);
                    assert(s[i].0 == k);
                }
                assert(s[s.len() - 1].0 == last);
            }
        }
    }
}

/// Entries in ascending key order are determined by the map that they stand for.
pub proof fn lemma_ascending_unique<K: OrdKey, V>(s: Seq<(K::V, V)>, t: Seq<(K::V, V)>)
    requires
        ascending::<K, V>(s),
        ascending::<K, V>(t),
        pairs_map(s) == pairs_map(t),
    ensures
        s == t,
    decreases s.len(),
{
    lemma_pairs_map::<K, V>(s);
    lemma_pairs_map::<K, V>(t);
    if s.len() == 0 {
        assert(s =~= t);
    } else {
        let n = s.len() - 1;
        let a = s[n];
        let b = t[n];
        assert(pairs_map(t).contains_key(a.0));
        assert(pairs_map(s).contains_key(b.0));
        let i = key_index(t, a.0);
        let j = key_index(s, b.0);
        assert(t[i].0 == a.0);
        assert(s[j].0 == b.0);
        if i < n && j < n {
            K::key_lt_transitive(a.0, b.0, a.0);
            K::key_lt_irreflexive(a.0);
        }
        if i == n || j == n {
            assert(a.0 == b.0);
        }
        assert(a == b);
        let s1 = s.drop_last();
        let t1 = t.drop_last();
        lemma_drop_last::<K, V>(s);
        lemma_drop_last::<K, V>(t);
        lemma_ascending_unique::<K, V>(s1, t1);
        assert(s =~= s1.push(a));
        assert(t =~= t1.push(b));
    }
}

/// Without its last entry, an ascending sequence of entries stands for the map
/// without the greatest key.
pub proof fn lemma_drop_last<K: OrdKey, V>(s: Seq<(K::V, V)>)
    requires
        ascending::<K, V>(s),
        s.len() > 0,
    ensures
        ascending::<K, V>(s.drop_last()),
        pairs_map(s.drop_last()) == pairs_map(s).remove(s.last().0),
{
    let t = s.drop_last();
    let last = s.last().0;
    assert forall|i: int, j: int|
        #![trigger t[i], t[j]]
        0 <= i < j < t.len() implies K::key_lt(t[i].0, t[j].0) by {
        assert(t[i] == s[i] && t[j] == s[j]);
    }
    lemma_pairs_map::<K, V>(s);
    lemma_pairs_map::<K, V>(t);
    K::key_lt_irreflexive(last);
    assert forall|k: K::V| has_key(t, k) == (has_key(s, k) && k != last) by {
        if has_key(t, k) {
            let i = key_index(t, k);
            assert(t[i].0 == k);
            assert(s[i].0 == k);
            assert(s[s.len() - 1].0 == last);
        }
        if has_key(s, k) && k != last {
            let i = key_index(s, k);
            assert(s[i].0 == k);
            assert(t[i].0 == k);
        }
    }
    assert forall|k: K::V| has_key(t, k) implies pairs_map(t)[k] == pairs_map(s)[k] by {
        let i = key_index(t, k);
        assert(t[i].0 == k);
        assert(s[i] == t[i]);
    }
    assert(pairs_map(t) =~= pairs_map(s).remove(last));
}

/// A map that has ascending entries still has them after an insert.
pub proof fn lemma_insert_has_pairs<K: OrdKey, V>(s: Seq<(K::V, V)>, key: K::V, value: V)
    requires
        ascending::<K, V>(s),
    ensures
        exists|t: Seq<(K::V, V)>| #[trigger]
            ascending::<K, V>(t) && pairs_map(t) == pairs_map(s).insert(key, value),
    decreases s.len(),
{
    let m = pairs_map(s).insert(key, value);
    if s.len() == 0 {
        lemma_push_greatest::<K, V>(s, key, value);
    } else {
        let init = s.drop_last();
        let last = s.last();
        lemma_drop_last::<K, V>(s);
        lemma_pairs_map::<K, V>(s);
        assert(s[s.len() - 1] == last);
        K::key_lt_total(key, last.0);
        if key == last.0 {
            lemma_push_greatest::<K, V>(init, last.0, value);
            let t = init.push((key, value));
            assert(pairs_map(t) =~= m);
            assert(ascending::<K, V>(t) && pairs_map(t) == m);
        } else if K::key_lt(last.0, key) {
            assert forall|i: int| 0 <= i < s.len() implies K::key_lt(#[trigger] s[i].0, key) by {
                if i < s.len() - 1 {
                    K::key_lt_transitive(s[i].0, last.0, key);
                }
            }
            lemma_push_greatest::<K, V>(s, key, value);
        } else {
            lemma_insert_has_pairs::<K, V>(init, key, value);
            let t = choose|t: Seq<(K::V, V)>| #[trigger]
                ascending::<K, V>(t) && pairs_map(t) == pairs_map(init).insert(key, value);
            assert forall|i: int| 0 <= i < t.len() implies K::key_lt(#[trigger] t[i].0, last.0) by {
                lemma_pairs_map::<K, V>(t);
                assert(pairs_map(t).contains_key(t[i].0));
                if t[i].0 != key {
                    assert(pairs_map(init).contains_key(t[i].0));
                    let j = key_index(init, t[i].0);
                    assert(init[j].0 == t[i].0);
                    assert(s[j].0 == t[i].0);
                }
            }
            lemma_push_greatest::<K, V>(t, last.0, last.1);
            let u = t.push(last);
            assert(pairs_map(u) =~= m);
            assert(ascending::<K, V>(u) && pairs_map(u) == m);
        }
    }
}

/// Ascending entries with a greater key pushed stand for the map with it inserted.
proof fn lemma_push_greatest<K: OrdKey, V>(s: Seq<(K::V, V)>, key: K::V, value: V)
    requires
        ascending::<K, V>(s),
        forall|i: int| 0 <= i < s.len() ==> K::key_lt(#[trigger] s[i].0, key),
    ensures
        ascending::<K, V>(s.push((key, value))),
        pairs_map(s.push((key, value))) == pairs_map(s).insert(key, value),
{
    let t = s.push((key, value));
    assert forall|i: int, j: int|
        #![trigger t[i], t[j]]
        0 <= i < j < t.len() implies K::key_lt(t[i].0, t[j].0) by {
        assert(t[i] == s[i]);
        if j < s.len() {
            assert(t[j] == s[j]);
        } else {
            assert(K::key_lt(s[i].0, key));
        }
    }
    lemma_drop_last::<K, V>(t);
    lemma_pairs_map::<K, V>(t);
    assert(t.drop_last() =~= s);
    assert(t[t.len() - 1] == (key, value));
    assert(pairs_map(t) =~= pairs_map(s).insert(key, value));
}

/// The entries of a map in ascending key order.
pub open spec fn sorted_pairs<K: OrdKey, V>(m: Map<K::V, V>) -> Seq<(K::V, V)> {
    choose|s: Seq<(K::V, V)>| #[trigger] ascending::<K, V>(s) && pairs_map(s) == m
}

/// A map with finitely many keys has sorted entries that stand for it.
pub proof fn lemma_finite_map_has_pairs<K: OrdKey, V>(m: Map<K::V, V>)
    requires
        m.dom().finite(),
    ensures
        ascending::<K, V>(sorted_pairs::<K, V>(m)),
        pairs_map(sorted_pairs::<K, V>(m)) == m,
    decreases m.dom().len(),
{
    if m.dom().len() == 0 {
        let e = Seq::<(K::V, V)>::empty();
        assert(m.dom() =~= Set::empty());
        assert(pairs_map(e) =~= m);
        assert(ascending::<K, V>(e));
    } else {
        let k = m.dom().choose();
        let rest = m.remove(k);
        lemma_finite_map_has_pairs::<K, V>(rest);
        lemma_insert_has_pairs::<K, V>(sorted_pairs::<K, V>(rest), k, m[k]);
        assert(rest.insert(k, m[k]) =~= m);
    }
}

/// Ascending entries are the sorted entries of the map that they stand for.
pub proof fn lemma_sorted_pairs<K: OrdKey, V>(s: Seq<(K::V, V)>)
    requires
        ascending::<K, V>(s),
    ensures
        sorted_pairs::<K, V>(pairs_map(s)) == s,
{
    lemma_ascending_unique::<K, V>(s, sorted_pairs::<K, V>(pairs_map(s)));
}

/// The entries with each value taken by its deep view.
pub open spec fn deep_pairs<Q, V: DeepView>(s: Seq<(Q, V)>) -> Seq<(Q, V::V)> {
    Seq::new(s.len(), |i: int| (s[i].0, s[i].1.deep_view()))
}

/// The deep views of ascending entries are the sorted entries of the deep view of
/// the map that they stand for.
pub proof fn lemma_deep_pairs<K: OrdKey, V: DeepView>(s: Seq<(K::V, V)>)
    requires
        ascending::<K, V>(s),
    ensures
        sorted_pairs::<K, V::V>(pairs_map(s).map_values(|v: V| v.deep_view())) == deep_pairs(s),
        ascending::<K, V::V>(deep_pairs(s)),
        pairs_map(deep_pairs(s)) == pairs_map(s).map_values(|v: V| v.deep_view()),
{
    let t = deep_pairs(s);
    assert forall|i: int, j: int|
        #![trigger t[i], t[j]]
        0 <= i < j < t.len() implies K::key_lt(t[i].0, t[j].0) by {
        assert(t[i].0 == s[i].0 && t[j].0 == s[j].0);
    }
    lemma_pairs_map::<K, V>(s);
    lemma_pairs_map::<K, V::V>(t);
    let m = pairs_map(s).map_values(|v: V| v.deep_view());
    assert forall|k: K::V| has_key(t, k) == has_key(s, k) by {
        if has_key(t, k) {
            assert(s[key_index(t, k)].0 == k);
        }
        if has_key(s, k) {
            assert(t[key_index(s, k)].0 == k);
        }
    }
    assert forall|k: K::V| has_key(t, k) implies pairs_map(t)[k] == m[k] by {
        let i = key_index(t, k);
        assert(t[i].0 == k);
        assert(s[i].0 == k);
    }
    assert(pairs_map(t) =~= m);
    lemma_sorted_pairs::<K, V::V>(t);
}

/// The entries with each key taken by its view.
pub open spec fn entry_pairs<K: OrdKey, V>(es: Seq<(K, V)>) -> Seq<(K::V, V)> {
    Seq::new(es.len(), |i: int| (es[i].0@, es[i].1))
}

/// A map from `K` to `V`, its entries kept in ascending key order.
pub struct OrdMap<K: OrdKey, V> {
    entries: Vec<(K, V)>,
}

impl<K: OrdKey, V> View for OrdMap<K, V> {
    type V = Map<K::V, V>;

    open spec fn view(&self) -> Map<K::V, V> {
        pairs_map(self.pairs())
    }
}

impl<K: OrdKey, V: DeepView> DeepView for OrdMap<K, V> {
    type V = Map<K::V, V::V>;

    open spec fn deep_view(&self) -> Map<K::V, V::V> {
        self@.map_values(|v: V| v.deep_view())
    }
}

impl<K: OrdKey, V> OrdMap<K, V> {
    #[verifier::type_invariant]
    spec fn sorted(self) -> bool {
        ascending::<K, V>(self.pairs())
    }

    /// The entries in ascending key order.
    pub closed spec fn pairs(&self) -> Seq<(K::V, V)> {
        entry_pairs::<K, V>(self.entries@)
    }

    /// An empty map.
    pub fn new() -> (r: Self)
        ensures
            r.pairs() == Seq::<(K::V, V)>::empty(),
            r@ == Map::<K::V, V>::empty(),
    {
        let r = OrdMap { entries: Vec::new() };
        assert(r.pairs() =~= Seq::empty());
        assert(r@ =~= Map::empty());
        r
    }

    /// A map of the given entries, which are in ascending key order.
    pub fn from_ascending(entries: Vec<(K, V)>) -> (r: Self)
        requires
            ascending::<K, V>(entry_pairs::<K, V>(entries@)),
        ensures
            r.pairs() == entry_pairs::<K, V>(entries@),
    {
        let ghost es = entries@;
        assert(ascending::<K, V>(entry_pairs::<K, V>(es)));
        OrdMap { entries }
    }

    /// The number of entries.
    pub fn len(&self) -> (r: usize)
        ensures
            ascending::<K, V>(self.pairs()),
            self.pairs() == sorted_pairs::<K, V>(self@),
            r == self.pairs().len(),
            r == self@.dom().len(),
            self@.dom().finite(),
    {
        proof {
            use_type_invariant(self);
            lemma_pairs_map::<K, V>(self.pairs());
            lemma_sorted_pairs::<K, V>(self.pairs());
        }
        self.entries.len()
    }

    /// Whether there is no entry.
    pub fn is_empty(&self) -> (r: bool)
        ensures
            r == (self@ == Map::<K::V, V>::empty()),
            r == (self.pairs().len() == 0),
    {
        let n = self.len();
        proof {
            if n == 0 {
                assert(self@ =~= Map::empty());
            }
        }
        n == 0
    }

    /// The key of the `i`th entry in ascending key order.
    pub fn key_at(&self, i: usize) -> (r: &K)
        requires
            i < self.pairs().len(),
        ensures
            r@ == self.pairs()[i as int].0,
    {
        &self.entries[i].0
    }

    /// The value of the `i`th entry in ascending key order.
    pub fn value_at(&self, i: usize) -> (r: &V)
        requires
            i < self.pairs().len(),
        ensures
            *r == self.pairs()[i as int].1,
    {
        &self.entries[i].1
    }

    /// Where `key` stands, or where it would be put.
    fn slot(&self, key: &K) -> (r: (usize, bool))
        ensures
            ascending::<K, V>(self.pairs()),
            r.0 <= self.pairs().len(),
            r.1 == has_key(self.pairs(), key@),
            r.1 ==> r.0 < self.pairs().len() && self.pairs()[r.0 as int].0 == key@,
            forall|i: int| 0 <= i < r.0 ==> K::key_lt(#[trigger] self.pairs()[i].0, key@),
            !r.1 ==> forall|i: int|
                r.0 <= i < self.pairs().len() ==> K::key_lt(key@, #[trigger] self.pairs()[i].0),
    {
        proof {
            use_type_invariant(self);
        }
        let ghost s = self.pairs();
        let mut lo: usize = 0;
        let mut hi: usize = self.entries.len();
        while lo < hi
            invariant
                s == self.pairs(),
                ascending::<K, V>(s),
                lo <= hi <= s.len(),
                s.len() == self.entries@.len(),
                forall|i: int| 0 <= i < lo ==> K::key_lt(#[trigger] s[i].0, key@),
                forall|i: int| hi <= i < s.len() ==> K::key_lt(key@, #[trigger] s[i].0),
            decreases hi - lo,
        {
            let mid = lo + (hi - lo) / 2;
            assert(s[mid as int].0 == self.entries@[mid as int].0@);
            match self.entries[mid].0.key_order(key) {
                KeyOrder::Equal => {
                    assert(has_key(s, key@));
                    return (mid, true);
                },
                KeyOrder::Less => {
                    assert forall|i: int| 0 <= i < mid + 1 implies K::key_lt(
                        #[trigger] s[i].0,
                        key@,
                    ) by {
                        if i < mid {
                            K::key_lt_transitive(s[i].0, s[mid as int].0, key@);
                        }
                    }
                    lo = mid + 1;
                },
                KeyOrder::Greater => {
                    assert forall|i: int| mid <= i < s.len() implies K::key_lt(
                        key@,
                        #[trigger] s[i].0,
                    ) by {
                        if mid < i {
                            K::key_lt_transitive(key@, s[mid as int].0, s[i].0);
                        }
                    }
                    hi = mid;
                },
            }
        }
        proof {
            if has_key(s, key@) {
                let i = key_index(s, key@);
                K::key_lt_irreflexive(key@);
                assert(s[i].0 == key@);
            }
        }
        (lo, false)
    }

    /// The value under `key`, if there is one.
    pub fn get(&self, key: &K) -> (r: Option<&V>)
        ensures
            match r {
                Some(v) => self@.contains_key(key@) && *v == self@[key@],
                None => !self@.contains_key(key@),
            },
    {
        let (i, found) = self.slot(key);
        if found {
            proof {
                lemma_pairs_map::<K, V>(self.pairs());
                assert(self.pairs()[i as int].0 == key@);
            }
            Some(&self.entries[i].1)
        } else {
            None
        }
    }

    /// Whether there is a value under `key`.
    pub fn contains_key(&self, key: &K) -> (r: bool)
        ensures
            r == self@.contains_key(key@),
    {
        self.slot(key).1
    }

    /// Puts `value` under `key`, in place of what was there.
    pub fn insert(&mut self, key: K, value: V)
        ensures
            final(self)@ == old(self)@.insert(key@, value),
    {
        let (i, found) = self.slot(&key);
        let ghost s = self.pairs();
        let ghost kv = key@;
        let mut es: Vec<(K, V)> = Vec::new();
        std::mem::swap(&mut es, &mut self.entries);
        proof {
            lemma_pairs_map::<K, V>(s);
        }
        if found {
            es.set(i, (key, value));
            let ghost t = entry_pairs::<K, V>(es@);
            proof {
                assert(t =~= s.update(i as int, (kv, value)));
                assert(s[i as int].0 == kv);
                assert forall|a: int, b: int|
                    #![trigger t[a], t[b]]
                    0 <= a < b < t.len() implies K::key_lt(t[a].0, t[b].0) by {
                    assert(t[a].0 == s[a].0 && t[b].0 == s[b].0);
                }
                lemma_pairs_map::<K, V>(t);
                assert(pairs_map(t) =~= pairs_map(s).insert(kv, value)) by {
                    assert forall|k: K::V| has_key(t, k) == has_key(s, k) by {
                        if has_key(s, k) {
                            assert(t[key_index(s, k)].0 == k);
                        }
                        if has_key(t, k) {
                            assert(s[key_index(t, k)].0 == k);
                        }
                    }
                    assert forall|k: K::V| has_key(t, k) implies pairs_map(t)[k] == pairs_map(
                        s,
                    ).insert(kv, value)[k] by {
                        let j = key_index(t, k);
                        assert(t[j].0 == k && s[j].0 == k);
                        K::key_lt_irreflexive(kv);
                    }
                }
            }
            self.entries = es;
            assert(self.pairs() =~= t);
        } else {
            es.insert(i, (key, value));
            let ghost t = entry_pairs::<K, V>(es@);
            proof {
                assert(t =~= s.insert(i as int, (kv, value)));
                assert forall|a: int, b: int|
                    #![trigger t[a], t[b]]
                    0 <= a < b < t.len() implies K::key_lt(t[a].0, t[b].0) by {
                    let a0 = if a < i { a } else { a - 1 };
                    let b0 = if b < i { b } else { b - 1 };
                    if a != i {
                        assert(t[a] == s[a0]);
                    }
                    if b != i {
                        assert(t[b] == s[b0]);
                    }
                }
                lemma_pairs_map::<K, V>(t);
                assert(pairs_map(t) =~= pairs_map(s).insert(kv, value)) by {
                    assert forall|k: K::V| has_key(t, k) == (has_key(s, k) || k == kv) by {
                        if has_key(s, k) {
                            let j = key_index(s, k);
                            assert(t[if j < i { j } else { j + 1 }].0 == k);
                        }
                        if has_key(t, k) {
                            let j = key_index(t, k);
                            if j != i {
                                assert(s[if j < i { j } else { j - 1 }].0 == k);
                            }
                        }
                        assert(t[i as int].0 == kv);
                    }
                    assert forall|k: K::V| has_key(t, k) implies pairs_map(t)[k] == pairs_map(
                        s,
                    ).insert(kv, value)[k] by {
                        let j = key_index(t, k);
                        assert(t[j].0 == k);
                        if j != i {
                            assert(s[if j < i { j } else { j - 1 }] == t[j]);
                        }
                    }
                }
            }
            self.entries = es;
            assert(self.pairs() =~= t);
        }
    }

    /// Takes the value under `key` out of the map.
    pub fn remove(&mut self, key: &K) -> (r: Option<V>)
        ensures
            final(self)@ == old(self)@.remove(key@),
            match r {
                Some(v) => old(self)@.contains_key(key@) && v == old(self)@[key@],
                None => !old(self)@.contains_key(key@),
            },
    {
        let (i, found) = self.slot(key);
        let ghost s = self.pairs();
        proof {
            lemma_pairs_map::<K, V>(s);
        }
        if !found {
            assert(self@ =~= old(self)@.remove(key@));
            return None;
        }
        let mut es: Vec<(K, V)> = Vec::new();
        std::mem::swap(&mut es, &mut self.entries);
        let (_, v) = es.remove(i);
        let ghost t = entry_pairs::<K, V>(es@);
        proof {
            assert(t =~= s.remove(i as int));
            assert(s[i as int].0 == key@);
            assert forall|a: int, b: int|
                #![trigger t[a], t[b]]
                0 <= a < b < t.len() implies K::key_lt(t[a].0, t[b].0) by {
                assert(t[a] == s[if a < i { a } else { a + 1 }]);
                assert(t[b] == s[if b < i { b } else { b + 1 }]);
            }
            lemma_pairs_map::<K, V>(t);
            assert(pairs_map(t) =~= pairs_map(s).remove(key@)) by {
                K::key_lt_irreflexive(key@);
                assert forall|k: K::V| has_key(t, k) == (has_key(s, k) && k != key@) by {
                    if has_key(s, k) && k != key@ {
                        let j = key_index(s, k);
                        assert(t[if j < i { j } else { j - 1 }].0 == k);
                    }
                    if has_key(t, k) {
                        let j = key_index(t, k);
                        assert(s[if j < i { j } else { j + 1 }].0 == k);
                    }
                }
                assert forall|k: K::V| has_key(t, k) implies pairs_map(t)[k] == pairs_map(s)[k] by {
                    let j = key_index(t, k);
                    assert(s[if j < i { j } else { j + 1 }] == t[j]);
                }
            }
        }
        self.entries = es;
        assert(self.pairs() =~= t);
        Some(v)
    }
}

impl<K: OrdKey, V: Dup> Dup for OrdMap<K, V> {
    fn dup(&self) -> (r: Self) {
        let n = self.len();
        let mut es: Vec<(K, V)> = Vec::new();
        let mut i: usize = 0;
        let ghost s = self.pairs();
        while i < n
            invariant
                i <= n,
                n == s.len(),
                s == self.pairs(),
                es@.len() == i,
                forall|j: int| #![trigger es@[j]] 0 <= j < i ==> es@[j].0@ == s[j].0,
                forall|j: int|
                    #![trigger es@[j]]
                    0 <= j < i ==> es@[j].1.deep_view() == s[j].1.deep_view(),
            decreases n - i,
        {
            es.push((self.key_at(i).key_copy(), self.value_at(i).dup()));
            i += 1;
        }
        let ghost t = entry_pairs::<K, V>(es@);
        proof {
            assert forall|a: int, b: int|
                #![trigger t[a], t[b]]
                0 <= a < b < t.len() implies K::key_lt(t[a].0, t[b].0) by {
                assert(t[a].0 == es@[a].0@ && t[b].0 == es@[b].0@);
                assert(t[a].0 == s[a].0 && t[b].0 == s[b].0);
            }
            lemma_pairs_map::<K, V>(s);
            lemma_pairs_map::<K, V>(t);
        }
        let r = OrdMap::from_ascending(es);
        proof {
            assert forall|k: K::V| has_key(s, k) == has_key(t, k) by {
                if has_key(s, k) {
                    let j = key_index(s, k);
                    assert(t[j].0 == es@[j].0@);
                    assert(t[j].0 == k);
                }
                if has_key(t, k) {
                    let j = key_index(t, k);
                    assert(t[j].0 == es@[j].0@);
                    assert(s[j].0 == k);
                }
            }
            assert forall|k: K::V| has_key(t, k) implies pairs_map(t)[k].deep_view() == pairs_map(
                s,
            )[k].deep_view() by {
                let j = key_index(t, k);
                assert(t[j].0 == es@[j].0@);
                assert(t[j].1 == es@[j].1);
                assert(s[j].0 == k);
            }
            assert(r.deep_view() =~= self.deep_view());
        }
        r
    }
}

/// A map has finitely many keys.
pub proof fn lemma_finite<K: OrdKey, V>(m: OrdMap<K, V>)
    ensures
        m@.dom().finite(),
{
    let keys = m.pairs().map_values(|p: (K::V, V)| p.0);
    assert forall|k: K::V| #[trigger] m@.dom().contains(k) implies keys.to_set().contains(k) by {
        let i = key_index(m.pairs(), k);
        assert(has_key(m.pairs(), k));
        assert(keys[i] == k);
    }
    vstd::seq_lib::seq_to_set_is_finite(keys);
    vstd::set_lib::lemma_len_subset(m@.dom(), keys.to_set());
}

/// A map is larger than each value in it.
pub proof fn lemma_value_is_smaller<K: OrdKey, V>(m: OrdMap<K, V>, i: int)
    requires
        0 <= i < m.pairs().len(),
    ensures
        decreases_to!(m => m.pairs()[i].1),
{
    assert(decreases_to!(m => m.entries));
    assert(decreases_to!(m.entries => m.entries@));
    assert(decreases_to!(m.entries@ => m.entries@[i]));
    assert(decreases_to!(m.entries@[i] => m.entries@[i].1));
}

} // verus!
