//! Substitution of values in a recorded response body.
use crate::chars;
use crate::dup::Dup;
use crate::json;
use crate::json::Json;
use crate::json::JsonModel;
use crate::ordmap;
use crate::ordmap::OrdMap;
use crate::text;
use crate::text::chars_occur_at;
use crate::text::chars_of;
use crate::text::has_text;
use vstd::prelude::*;
use vstd::string::StringExecFns;

verus! {

// ─── Differences ─────────────────────────────────────────────────────────────

/// The pairs of differing strings at the same place in two documents, in the order
/// of the recorded one.
pub open spec fn value_diffs(recorded: JsonModel, incoming: JsonModel) -> Seq<
    (Seq<char>, Seq<char>),
>
    decreases recorded, 0nat,
{
    match (recorded, incoming) {
        (JsonModel::Str(r), JsonModel::Str(i)) => if r != i {
            seq![(r, i)]
        } else {
            Seq::empty()
        },
        (JsonModel::Object(r), JsonModel::Object(i)) => member_diffs(r, i, r.len()),
        (JsonModel::Array(r), JsonModel::Array(i)) => item_diffs(
            r,
            i,
            if r.len() <= i.len() {
                r.len()
            } else {
                i.len()
            },
        ),
        _ => Seq::empty(),
    }
}

/// The differences in the first `n` members of `r` that `i` has too.
pub open spec fn member_diffs(
    r: Seq<(Seq<char>, JsonModel)>,
    i: Seq<(Seq<char>, JsonModel)>,
    n: nat,
) -> Seq<(Seq<char>, Seq<char>)>
    decreases r, n,
{
    if n == 0 || n > r.len() {
        Seq::empty()
    } else {
        let (key, value) = r[n - 1];
        let before = member_diffs(r, i, (n - 1) as nat);
        if ordmap::has_key(i, key) {
            before + value_diffs(r[n - 1].1, ordmap::pairs_map(i)[key])
        } else {
            before
        }
    }
}

/// The differences in the first `n` items.
pub open spec fn item_diffs(r: Seq<JsonModel>, i: Seq<JsonModel>, n: nat) -> Seq<
    (Seq<char>, Seq<char>),
>
    decreases r, n,
{
    if n == 0 || n > r.len() || n > i.len() {
        Seq::empty()
    } else {
        item_diffs(r, i, (n - 1) as nat) + value_diffs(r[n - 1], i[n - 1])
    }
}

/// Adds to `diffs` the pairs of differing strings at the same place in `recorded`
/// and `incoming`.
#[verifier::loop_isolation(false)]
pub fn collect_value_diffs(recorded: &Json, incoming: &Json, diffs: &mut Vec<(String, String)>)
    ensures
        final(diffs).deep_view() == old(diffs).deep_view() + value_diffs(
            recorded.model(),
            incoming.model(),
        ),
    decreases recorded,
{
    let ghost start = diffs.deep_view();
    match (recorded, incoming) {
        (Json::Str(r), Json::Str(i)) => {
            if *r != *i {
                diffs.push((r.clone(), i.clone()));
                assert(diffs.deep_view() =~= start + seq![(r@, i@)]);
            } else {
                assert(diffs.deep_view() =~= start + Seq::empty());
            }
        },
        (Json::Object(r), Json::Object(i)) => {
            let n = r.len();
            let m = i.len();
            let ghost rs = recorded.model()->Object_0;
            let ghost is = incoming.model()->Object_0;
            assert(ordmap::deep_pairs(i.pairs()) =~= is);
            proof {
                ordmap::lemma_deep_pairs::<String, Json>(i.pairs());
            }
            let mut k: usize = 0;
            assert(diffs.deep_view() =~= start + member_diffs(rs, is, 0));
            while k < n
                invariant
                    k <= n,
                    n == r.pairs().len(),
                    diffs.deep_view() == start + member_diffs(rs, is, k as nat),
                decreases n - k,
            {
                let key = r.key_at(k);
                assert(rs[k as int] == (r.pairs()[k as int].0, r.pairs()[k as int].1.model()));
                match i.get(key) {
                    Some(inc_val) => {
                        proof {
                            assert(decreases_to!(*recorded => *r));
                            ordmap::lemma_value_is_smaller(*r, k as int);
                            assert(ordmap::pairs_map(is)[key@] == inc_val.model());
                            assert(ordmap::pairs_map(is).contains_key(key@));
                        }
                        let ghost before = diffs.deep_view();
                        collect_value_diffs(r.value_at(k), inc_val, diffs);
                        assert(diffs.deep_view() =~= start + member_diffs(
                            rs,
                            is,
                            (k + 1) as nat,
                        ));
                    },
                    None => {
                        assert(!ordmap::pairs_map(is).contains_key(key@));
                    },
                }
                k += 1;
            }
        },
        (Json::Array(r), Json::Array(i)) => {
            let ghost rs = recorded.model()->Array_0;
            let ghost is = incoming.model()->Array_0;
            let mut k: usize = 0;
            assert(diffs.deep_view() =~= start + item_diffs(rs, is, 0));
            while k < r.len() && k < i.len()
                invariant
                    k <= r@.len(),
                    k <= i@.len(),
                    diffs.deep_view() == start + item_diffs(rs, is, k as nat),
                decreases r@.len() - k,
            {
                proof {
                    assert(decreases_to!(*recorded => *r));
                    assert(decreases_to!(r@ => r@[k as int]));
                    assert(rs[k as int] == r@[k as int].model());
                    assert(is[k as int] == i@[k as int].model());
                }
                collect_value_diffs(&r[k], &i[k], diffs);
                k += 1;
                assert(diffs.deep_view() =~= start + item_diffs(rs, is, k as nat));
            }
        },
        _ => {
            assert(diffs.deep_view() =~= start + Seq::empty());
        },
    }
}

/// One step into a document: to the member of a key, or to an item.
pub enum Place {
    Member(Seq<char>),
    Item(int),
}

/// `v` stands in the document at this place.
pub open spec fn value_at(m: JsonModel, place: Seq<Place>, v: JsonModel) -> bool
    decreases place.len(),
{
    if place.len() == 0 {
        m == v
    } else {
        match (m, place[0]) {
            (JsonModel::Object(members), Place::Member(key)) => exists|j: int|
                0 <= j < members.len() && (#[trigger] members[j]).0 == key && value_at(
                    members[j].1,
                    place.drop_first(),
                    v,
                ),
            (JsonModel::Array(items), Place::Item(j)) => 0 <= j < items.len() && value_at(
                items[j],
                place.drop_first(),
                v,
            ),
            _ => false,
        }
    }
}

/// The string `s` stands in the document at this place.
pub open spec fn string_at(m: JsonModel, place: Seq<Place>, s: Seq<char>) -> bool {
    value_at(m, place, JsonModel::Str(s))
}

/// No object of the document has two members of one key.
pub open spec fn distinct_keys(m: JsonModel) -> bool
    decreases m,
{
    match m {
        JsonModel::Object(members) => {
            &&& forall|i: int, j: int|
                #![trigger members[i], members[j]]
                0 <= i < members.len() && 0 <= j < members.len() && members[i].0 == members[j].0
                    ==> i == j
            &&& forall|i: int| 0 <= i < members.len() ==> distinct_keys((#[trigger] members[i]).1)
        },
        JsonModel::Array(items) => forall|i: int|
            0 <= i < items.len() ==> distinct_keys(#[trigger] items[i]),
        _ => true,
    }
}

proof fn lemma_member_diffs_have(
    r: Seq<(Seq<char>, JsonModel)>,
    i: Seq<(Seq<char>, JsonModel)>,
    n: nat,
    j: int,
    d: (Seq<char>, Seq<char>),
)
    requires
        0 <= j < n <= r.len(),
        ordmap::has_key(i, r[j].0),
        value_diffs(r[j].1, ordmap::pairs_map(i)[r[j].0]).contains(d),
    ensures
        member_diffs(r, i, n).contains(d),
    decreases n,
{
    let before = member_diffs(r, i, (n - 1) as nat);
    let all = member_diffs(r, i, n);
    if j == n - 1 {
        let last = value_diffs(r[n - 1].1, ordmap::pairs_map(i)[r[n - 1].0]);
        let k = last.index_of(d);
        assert(all[before.len() + k] == d);
    } else {
        lemma_member_diffs_have(r, i, (n - 1) as nat, j, d);
        let k = before.index_of(d);
        assert(all[k] == d);
    }
}

proof fn lemma_item_diffs_have(
    r: Seq<JsonModel>,
    i: Seq<JsonModel>,
    n: nat,
    j: int,
    d: (Seq<char>, Seq<char>),
)
    requires
        0 <= j < n <= r.len(),
        n <= i.len(),
        value_diffs(r[j], i[j]).contains(d),
    ensures
        item_diffs(r, i, n).contains(d),
    decreases n,
{
    let before = item_diffs(r, i, (n - 1) as nat);
    let all = item_diffs(r, i, n);
    if j == n - 1 {
        let k = value_diffs(r[n - 1], i[n - 1]).index_of(d);
        assert(all[before.len() + k] == d);
    } else {
        lemma_item_diffs_have(r, i, (n - 1) as nat, j, d);
        let k = before.index_of(d);
        assert(all[k] == d);
    }
}

/// Every string that differs at a place of both documents is found, as the recorded
/// string and the incoming one.
pub proof fn law_differing_strings_are_found(
    recorded: JsonModel,
    incoming: JsonModel,
    place: Seq<Place>,
    a: Seq<char>,
    b: Seq<char>,
)
    requires
        distinct_keys(incoming),
        string_at(recorded, place, a),
        string_at(incoming, place, b),
        a != b,
    ensures
        value_diffs(recorded, incoming).contains((a, b)),
    decreases place.len(),
{
    let d = (a, b);
    if place.len() == 0 {
        assert(value_diffs(recorded, incoming)[0] == d);
    } else {
        let rest = place.drop_first();
        match (recorded, incoming) {
            (JsonModel::Object(r), JsonModel::Object(i)) => {
                let key = place[0]->Member_0;
                let j = choose|j: int|
                    0 <= j < r.len() && (#[trigger] r[j]).0 == key && value_at(r[j].1, rest, JsonModel::Str(a));
                let k = choose|k: int|
                    0 <= k < i.len() && (#[trigger] i[k]).0 == key && value_at(i[k].1, rest, JsonModel::Str(b));
                assert(ordmap::has_key(i, key));
                let q = ordmap::key_index(i, key);
                assert(i[q].0 == key);
                assert(q == k);
                assert(distinct_keys(i[k].1));
                law_differing_strings_are_found(r[j].1, i[k].1, rest, a, b);
                lemma_member_diffs_have(r, i, r.len(), j, d);
            },
            (JsonModel::Array(r), JsonModel::Array(i)) => {
                let j = place[0]->Item_0;
                assert(distinct_keys(i[j]));
                law_differing_strings_are_found(r[j], i[j], rest, a, b);
                let n = if r.len() <= i.len() {
                    r.len()
                } else {
                    i.len()
                };
                lemma_item_diffs_have(r, i, n, j, d);
            },
            _ => {},
        }
    }
}

/// What is found differs at some place of both documents.
pub proof fn law_found_strings_differ(
    recorded: JsonModel,
    incoming: JsonModel,
    a: Seq<char>,
    b: Seq<char>,
)
    requires
        value_diffs(recorded, incoming).contains((a, b)),
    ensures
        a != b,
        exists|place: Seq<Place>| #[trigger]
            string_at(recorded, place, a) && string_at(incoming, place, b),
    decreases recorded, 0nat,
{
    match (recorded, incoming) {
        (JsonModel::Str(_), JsonModel::Str(_)) => {
            let none = Seq::<Place>::empty();
            assert(string_at(recorded, none, a) && string_at(incoming, none, b));
        },
        (JsonModel::Object(r), JsonModel::Object(i)) => {
            lemma_found_in_members(r, i, r.len(), a, b);
        },
        (JsonModel::Array(r), JsonModel::Array(i)) => {
            let n = if r.len() <= i.len() {
                r.len()
            } else {
                i.len()
            };
            lemma_found_in_items(r, i, n, a, b);
        },
        _ => {},
    }
}

proof fn lemma_member_at(
    members: Seq<(Seq<char>, JsonModel)>,
    j: int,
    rest: Seq<Place>,
    v: JsonModel,
)
    requires
        0 <= j < members.len(),
        value_at(members[j].1, rest, v),
    ensures
        value_at(JsonModel::Object(members), seq![Place::Member(members[j].0)] + rest, v),
{
    let key = members[j].0;
    let place = seq![Place::Member(key)] + rest;
    let m = JsonModel::Object(members);
    assert(place.drop_first() =~= rest);
    assert(place[0] == Place::Member(key));
    assert(value_at(m, place, v) == match (m, place[0]) {
        (JsonModel::Object(ms), Place::Member(k)) => exists|i: int|
            0 <= i < ms.len() && (#[trigger] ms[i]).0 == k && value_at(
                ms[i].1,
                place.drop_first(),
                v,
            ),
        _ => false,
    });
    assert(members[j].0 == key);
}

proof fn lemma_found_in_members(
    r: Seq<(Seq<char>, JsonModel)>,
    i: Seq<(Seq<char>, JsonModel)>,
    n: nat,
    a: Seq<char>,
    b: Seq<char>,
)
    requires
        member_diffs(r, i, n).contains((a, b)),
    ensures
        a != b,
        exists|place: Seq<Place>| #[trigger]
            string_at(JsonModel::Object(r), place, a) && string_at(JsonModel::Object(i), place, b),
    decreases r, n,
{
    let d = (a, b);
    let before = member_diffs(r, i, (n - 1) as nat);
    let all = member_diffs(r, i, n);
    let k = all.index_of(d);
    if k < before.len() {
        assert(before[k] == d);
        lemma_found_in_members(r, i, (n - 1) as nat, a, b);
    } else {
        let key = r[n - 1].0;
        let q = ordmap::key_index(i, key);
        assert(ordmap::has_key(i, key));
        assert(i[q].0 == key);
        assert(value_diffs(r[n - 1].1, i[q].1)[k - before.len()] == d);
        law_found_strings_differ(r[n - 1].1, i[q].1, a, b);
        let rest = choose|place: Seq<Place>| #[trigger]
            string_at(r[n - 1].1, place, a) && string_at(i[q].1, place, b);
        let place = seq![Place::Member(key)] + rest;
        lemma_member_at(r, n - 1, rest, JsonModel::Str(a));
        lemma_member_at(i, q, rest, JsonModel::Str(b));
        assert(string_at(JsonModel::Object(r), place, a));
        assert(string_at(JsonModel::Object(i), place, b));
    }
}

proof fn lemma_found_in_items(
    r: Seq<JsonModel>,
    i: Seq<JsonModel>,
    n: nat,
    a: Seq<char>,
    b: Seq<char>,
)
    requires
        item_diffs(r, i, n).contains((a, b)),
    ensures
        a != b,
        exists|place: Seq<Place>| #[trigger]
            string_at(JsonModel::Array(r), place, a) && string_at(JsonModel::Array(i), place, b),
    decreases r, n,
{
    let d = (a, b);
    let before = item_diffs(r, i, (n - 1) as nat);
    let all = item_diffs(r, i, n);
    let k = all.index_of(d);
    if k < before.len() {
        assert(before[k] == d);
        lemma_found_in_items(r, i, (n - 1) as nat, a, b);
    } else {
        assert(value_diffs(r[n - 1], i[n - 1])[k - before.len()] == d);
        law_found_strings_differ(r[n - 1], i[n - 1], a, b);
        let rest = choose|place: Seq<Place>| #[trigger]
            string_at(r[n - 1], place, a) && string_at(i[n - 1], place, b);
        let place = seq![Place::Item(n - 1)] + rest;
        assert(place.drop_first() =~= rest);
        assert(string_at(JsonModel::Array(r), place, a));
        assert(string_at(JsonModel::Array(i), place, b));
    }
}

/// A document with distinct keys has at most one string at a place.
pub proof fn lemma_one_string_at(m: JsonModel, place: Seq<Place>, a: Seq<char>, b: Seq<char>)
    requires
        distinct_keys(m),
        string_at(m, place, a),
        string_at(m, place, b),
    ensures
        a == b,
    decreases place.len(),
{
    if place.len() > 0 {
        let rest = place.drop_first();
        match m {
            JsonModel::Object(r) => {
                let key = place[0]->Member_0;
                let j = choose|j: int|
                    0 <= j < r.len() && (#[trigger] r[j]).0 == key && value_at(r[j].1, rest, JsonModel::Str(a));
                let k = choose|k: int|
                    0 <= k < r.len() && (#[trigger] r[k]).0 == key && value_at(r[k].1, rest, JsonModel::Str(b));
                assert(j == k);
                lemma_one_string_at(r[j].1, rest, a, b);
            },
            JsonModel::Array(r) => {
                lemma_one_string_at(r[place[0]->Item_0], rest, a, b);
            },
            _ => {},
        }
    }
}

// ─── Evidence ────────────────────────────────────────────────────────────────

/// The substitutions for the changes whose recorded value stands in `body`; of
/// changes of one value the last one counts.
pub open spec fn traced(changes: Seq<(Seq<char>, Seq<char>)>, body: Seq<char>) -> Map<
    Seq<char>,
    Seq<char>,
>
    decreases changes.len(),
{
    if changes.len() == 0 {
        Map::empty()
    } else {
        let before = traced(changes.drop_last(), body);
        let (from, to) = changes.last();
        if text::contains_text(body, from) {
            before.insert(from, to)
        } else {
            before
        }
    }
}

/// The substitutions for the changes whose recorded value stands in `body`.
pub fn trace_changes(changes: &Vec<(String, String)>, body: &str) -> (r: OrdMap<String, String>)
    ensures
        r.deep_view() == traced(changes.deep_view(), body@),
{
    let ghost cs = changes.deep_view();
    let mut out: OrdMap<String, String> = OrdMap::new();
    let mut i: usize = 0;
    assert(out.deep_view() =~= Map::empty());
    assert(cs.take(0) =~= Seq::empty());
    while i < changes.len()
        invariant
            cs == changes.deep_view(),
            i <= changes@.len(),
            out.deep_view() == traced(cs.take(i as int), body@),
        decreases changes@.len() - i,
    {
        let ghost before = out.deep_view();
        proof {
            let t = cs.take(i + 1);
            assert(t.drop_last() =~= cs.take(i as int));
            assert(t.last() == changes@[i as int].deep_view());
        }
        if has_text(body, changes[i].0.as_str()) {
            out.insert(changes[i].0.clone(), changes[i].1.clone());
            assert(out.deep_view() =~= before.insert(
                changes@[i as int].0@,
                changes@[i as int].1@,
            ));
        }
        i += 1;
    }
    assert(cs.take(i as int) =~= cs);
    out
}

/// Only values that stand in the recorded body are substituted.
pub proof fn law_substitutions_have_evidence(
    changes: Seq<(Seq<char>, Seq<char>)>,
    body: Seq<char>,
    from: Seq<char>,
)
    requires
        traced(changes, body).contains_key(from),
    ensures
        text::contains_text(body, from),
        exists|i: int| 0 <= i < changes.len() && #[trigger] changes[i].0 == from,
    decreases changes.len(),
{
    let init = changes.drop_last();
    if changes.last().0 == from && text::contains_text(body, from) {
        assert(changes[changes.len() - 1].0 == from);
    } else {
        law_substitutions_have_evidence(init, body, from);
        let i = choose|i: int| 0 <= i < init.len() && #[trigger] init[i].0 == from;
        assert(changes[i].0 == from);
    }
}

/// A changed value that stands in the recorded body is substituted, by a value that
/// it changed to; by which one is settled if it is the only one.
pub proof fn law_traceable_changes_are_substituted(
    changes: Seq<(Seq<char>, Seq<char>)>,
    body: Seq<char>,
    from: Seq<char>,
    to: Seq<char>,
)
    requires
        changes.contains((from, to)),
        text::contains_text(body, from),
    ensures
        traced(changes, body).contains_key(from),
        changes.contains((from, traced(changes, body)[from])),
        (forall|c: (Seq<char>, Seq<char>)| #[trigger]
            changes.contains(c) && c.0 == from ==> c.1 == to) ==> traced(changes, body)[from] == to,
    decreases changes.len(),
{
    let init = changes.drop_last();
    let last = changes.last();
    assert(changes[changes.len() - 1] == last);
    assert(changes.contains(last));
    if last.0 != from {
        let k = changes.index_of((from, to));
        assert(init[k] == (from, to));
        law_traceable_changes_are_substituted(init, body, from, to);
        let v = traced(init, body)[from];
        let j = init.index_of((from, v));
        assert(changes[j] == (from, v));
        assert(changes.contains((from, v)));
    }
}

/// Of changes of one value the last one counts.
pub proof fn law_last_change_counts(
    changes: Seq<(Seq<char>, Seq<char>)>,
    body: Seq<char>,
    k: int,
)
    requires
        0 <= k < changes.len(),
        text::contains_text(body, changes[k].0),
        forall|j: int| k < j < changes.len() ==> (#[trigger] changes[j]).0 != changes[k].0,
    ensures
        traced(changes, body).contains_key(changes[k].0),
        traced(changes, body)[changes[k].0] == changes[k].1,
    decreases changes.len(),
{
    if k < changes.len() - 1 {
        let init = changes.drop_last();
        assert(changes[changes.len() - 1].0 != changes[k].0);
        assert forall|j: int| k < j < init.len() implies (#[trigger] init[j]).0 != init[k].0 by {
            assert(init[j] == changes[j]);
        }
        law_last_change_counts(init, body, k);
    }
}

/// Changes that come later count before earlier ones.
pub proof fn lemma_later_changes_count(
    earlier: Seq<(Seq<char>, Seq<char>)>,
    later: Seq<(Seq<char>, Seq<char>)>,
    body: Seq<char>,
    from: Seq<char>,
)
    ensures
        traced(later, body).contains_key(from) ==> traced(earlier + later, body).contains_key(from)
            && traced(earlier + later, body)[from] == traced(later, body)[from],
        !traced(later, body).contains_key(from) ==> traced(earlier + later, body).contains_key(from)
            == traced(earlier, body).contains_key(from) && (traced(earlier, body).contains_key(from)
            ==> traced(earlier + later, body)[from] == traced(earlier, body)[from]),
    decreases later.len(),
{
    let all = earlier + later;
    if later.len() == 0 {
        assert(all =~= earlier);
    } else {
        assert(all.drop_last() =~= earlier + later.drop_last());
        assert(all.last() == later.last());
        lemma_later_changes_count(earlier, later.drop_last(), body, from);
    }
}

// ─── Substitution in JSON ────────────────────────────────────────────────────

/// `s`, or what is to stand in its place.
pub open spec fn replacement(s: Seq<char>, subs: Map<Seq<char>, Seq<char>>) -> Seq<char> {
    if subs.contains_key(s) {
        subs[s]
    } else {
        s
    }
}

/// A document with every string value that is a key of `subs` replaced. Keys,
/// numbers and parts of strings stay.
pub open spec fn substituted(m: JsonModel, subs: Map<Seq<char>, Seq<char>>) -> JsonModel
    decreases m,
{
    match m {
        JsonModel::Str(s) => JsonModel::Str(replacement(s, subs)),
        JsonModel::Array(items) => JsonModel::Array(
            Seq::new(
                items.len(),
                |i: int|
                    if 0 <= i < items.len() {
                        substituted(items[i], subs)
                    } else {
                        JsonModel::Null
                    },
            ),
        ),
        JsonModel::Object(members) => JsonModel::Object(
            Seq::new(
                members.len(),
                |i: int|
                    if 0 <= i < members.len() {
                        (members[i].0, substituted(members[i].1, subs))
                    } else {
                        (Seq::empty(), JsonModel::Null)
                    },
            ),
        ),
        other => other,
    }
}

#[verifier::loop_isolation(false)]
fn with_substitutions(val: &Json, subs: &OrdMap<String, String>) -> (r: Json)
    ensures
        r.model() == substituted(val.model(), subs.deep_view()),
    decreases val,
{
    let ghost sm = subs.deep_view();
    match val {
        Json::Str(s) => match subs.get(s) {
            Some(to) => Json::Str(to.clone()),
            None => Json::Str(s.clone()),
        },
        Json::Array(v) => {
            let mut out: Vec<Json> = Vec::new();
            let mut i: usize = 0;
            while i < v.len()
                invariant
                    i <= v@.len(),
                    out@.len() == i,
                    forall|j: int|
                        0 <= j < i ==> #[trigger] out@[j].model() == substituted(
                            v@[j].model(),
                            sm,
                        ),
                decreases v@.len() - i,
            {
                proof {
                    assert(decreases_to!(*val => *v));
                    assert(decreases_to!(v@ => v@[i as int]));
                }
                out.push(with_substitutions(&v[i], subs));
                i += 1;
            }
            let ghost outs = out@;
            let r = Json::Array(out);
            proof {
                let ms = r.model()->Array_0;
                let ts = substituted(val.model(), sm)->Array_0;
                assert forall|i: int| 0 <= i < ms.len() implies ms[i] == ts[i] by {
                    assert(outs[i].model() == substituted(v@[i].model(), sm));
                }
                assert(ms =~= ts);
            }
            r
        },
        Json::Object(m) => {
            let n = m.len();
            let mut out: Vec<(String, Json)> = Vec::new();
            let mut i: usize = 0;
            while i < n
                invariant
                    n == m.pairs().len(),
                    i <= n,
                    out@.len() == i,
                    forall|j: int|
                        #![trigger out@[j]]
                        0 <= j < i ==> out@[j].0@ == m.pairs()[j].0 && out@[j].1.model()
                            == substituted(m.pairs()[j].1.model(), sm),
                decreases n - i,
            {
                proof {
                    assert(decreases_to!(*val => *m));
                    ordmap::lemma_value_is_smaller(*m, i as int);
                }
                out.push((m.key_at(i).clone(), with_substitutions(m.value_at(i), subs)));
                i += 1;
            }
            let ghost b = ordmap::entry_pairs::<String, Json>(out@);
            proof {
                assert forall|i: int, j: int|
                    #![trigger b[i], b[j]]
                    0 <= i < j < b.len() implies <String as ordmap::OrdKey>::key_lt(
                    b[i].0,
                    b[j].0,
                ) by {
                    assert(b[i].0 == out@[i].0@ && b[j].0 == out@[j].0@);
                    assert(b[i].0 == m.pairs()[i].0 && b[j].0 == m.pairs()[j].0);
                }
            }
            let r = Json::Object(OrdMap::from_ascending(out));
            proof {
                let ms = r.model()->Object_0;
                let ts = substituted(val.model(), sm)->Object_0;
                assert forall|i: int| 0 <= i < ms.len() implies ms[i] == ts[i] by {
                    assert(b[i].0 == out@[i].0@);
                    assert(b[i].1 == out@[i].1);
                }
                assert(ms =~= ts);
            }
            r
        },
        _ => val.dup(),
    }
}

/// Replaces every string value of `val` that is a key of `subs`. Parts of strings
/// stay: `"123"` never changes `"1230"`.
pub fn substitute_in_json(val: &mut Json, subs: &OrdMap<String, String>)
    ensures
        final(val).model() == substituted(old(val).model(), subs.deep_view()),
{
    let changed = with_substitutions(val, subs);
    *val = changed;
}

/// Substitution keeps every place: where a value stood, the value with its strings
/// replaced stands.
proof fn lemma_substituted_at(
    m: JsonModel,
    subs: Map<Seq<char>, Seq<char>>,
    place: Seq<Place>,
    v: JsonModel,
)
    requires
        value_at(m, place, v),
    ensures
        value_at(substituted(m, subs), place, substituted(v, subs)),
    decreases place.len(),
{
    if place.len() > 0 {
        let rest = place.drop_first();
        match m {
            JsonModel::Object(r) => {
                let key = place[0]->Member_0;
                let j = choose|j: int|
                    0 <= j < r.len() && (#[trigger] r[j]).0 == key && value_at(r[j].1, rest, v);
                lemma_substituted_at(r[j].1, subs, rest, v);
                let t = substituted(m, subs)->Object_0;
                assert(t[j] == (key, substituted(r[j].1, subs)));
            },
            JsonModel::Array(r) => {
                let j = place[0]->Item_0;
                lemma_substituted_at(r[j], subs, rest, v);
                let t = substituted(m, subs)->Array_0;
                assert(t[j] == substituted(r[j], subs));
            },
            _ => {},
        }
    }
}

/// Substitution rewrites whole strings in place: where a string stood that is
/// substituted, what it is substituted by stands; any other string, every number,
/// `true`, `false` and `null` stand where they stood; and an object there has the same
/// keys, an array as many items.
pub proof fn law_strings_are_replaced_in_place(
    m: JsonModel,
    subs: Map<Seq<char>, Seq<char>>,
    place: Seq<Place>,
    v: JsonModel,
)
    requires
        value_at(m, place, v),
    ensures
        match v {
            JsonModel::Str(s) => if subs.contains_key(s) {
                string_at(substituted(m, subs), place, subs[s])
            } else {
                string_at(substituted(m, subs), place, s)
            },
            JsonModel::Array(items) => exists|t: Seq<JsonModel>|
                t.len() == items.len() && #[trigger] value_at(
                    substituted(m, subs),
                    place,
                    JsonModel::Array(t),
                ),
            JsonModel::Object(members) => exists|t: Seq<(Seq<char>, JsonModel)>|
                t.len() == members.len() && #[trigger] value_at(
                    substituted(m, subs),
                    place,
                    JsonModel::Object(t),
                ) && forall|i: int|
                    0 <= i < t.len() ==> (#[trigger] t[i]).0 == members[i].0,
            _ => value_at(substituted(m, subs), place, v),
        },
{
    lemma_substituted_at(m, subs, place, v);
}

/// A string value that is no key of the substitutions stays as it is.
pub proof fn law_other_strings_stay(s: Seq<char>, subs: Map<Seq<char>, Seq<char>>)
    requires
        !subs.contains_key(s),
    ensures
        substituted(JsonModel::Str(s), subs) == JsonModel::Str(s),
{
}

/// Without substitutions a document stays as it is.
pub proof fn law_no_substitutions(m: JsonModel)
    ensures
        substituted(m, Map::empty()) == m,
    decreases m,
{
    match m {
        JsonModel::Array(items) => {
            assert forall|i: int| 0 <= i < items.len() implies substituted(
                #[trigger] items[i],
                Map::empty(),
            ) == items[i] by {
                law_no_substitutions(items[i]);
            }
            assert(substituted(m, Map::empty())->Array_0 =~= items);
        },
        JsonModel::Object(members) => {
            assert forall|i: int| 0 <= i < members.len() implies substituted(
                (#[trigger] members[i]).1,
                Map::empty(),
            ) == members[i].1 by {
                law_no_substitutions(members[i].1);
            }
            assert(substituted(m, Map::empty())->Object_0 =~= members);
        },
        _ => {},
    }
}

// ─── Substitution in plain text ──────────────────────────────────────────────

/// An ASCII character that is part of an identifier.
pub open spec fn id_byte(b: u8) -> bool {
    (0x30 <= b <= 0x39) || (0x41 <= b <= 0x5a) || (0x61 <= b <= 0x7a) || b == 0x2d || b == 0x5f
}

/// A character that is part of an identifier: a letter or number, `-` or `_`.
pub open spec fn id_char(c: char) -> bool {
    chars::is_alphanumeric(c) || c == '-' || c == '_'
}

/// Whether the ASCII character `b` is part of an identifier.
pub fn is_id_byte(b: u8) -> (r: bool)
    ensures
        r == id_byte(b),
{
    (0x30 <= b && b <= 0x39) || (0x41 <= b && b <= 0x5a) || (0x61 <= b && b <= 0x7a) || b == 0x2d
        || b == 0x5f
}

fn is_id_char(c: char) -> (r: bool)
    ensures
        r == id_char(c),
{
    if c <= '\u{7f}' {
        is_id_byte(c as u8)
    } else {
        c.is_alphanumeric()
    }
}

/// `from` stands in `text` at `i` with no identifier character right before or
/// after it.
pub open spec fn word_at(text: Seq<char>, from: Seq<char>, i: int) -> bool {
    &&& text::occurs_at(text, from, i)
    &&& i > 0 ==> !id_char(text[i - 1])
    &&& i + from.len() < text.len() ==> !id_char(text[i + from.len()])
}

/// `text` from `i` on, with `to` in place of each `from` that stands there as a
/// word, from left to right.
pub open spec fn words_replaced(
    text: Seq<char>,
    from: Seq<char>,
    to: Seq<char>,
    i: int,
) -> Seq<char>
    decreases text.len() - i,
{
    if i < 0 || i >= text.len() || from.len() == 0 {
        Seq::empty()
    } else if word_at(text, from, i) {
        to + words_replaced(text, from, to, i + from.len())
    } else {
        seq![text[i]] + words_replaced(text, from, to, i + 1)
    }
}

/// `text` with `to` in place of each `from` that stands there as a word.
pub open spec fn word_replaced(text: Seq<char>, from: Seq<char>, to: Seq<char>) -> Seq<char> {
    if from.len() == 0 {
        text
    } else {
        words_replaced(text, from, to, 0)
    }
}

/// Replaces `from` with `to` where it stands as a word: `"tok1"` is replaced in
/// `"token=tok1 ok"`, not in `"tok10"` or `"mytok1"`.
pub fn replace_at_word_boundary(text: &str, from: &str, to: &str) -> (r: String)
    ensures
        r@ == word_replaced(text@, from@, to@),
{
    let cs = chars_of(text);
    let pattern = chars_of(from);
    let n = cs.len();
    let m = pattern.len();
    if m == 0 {
        return text.to_owned();
    }
    let mut result = String::new();
    let mut i: usize = 0;
    assert(result@ + words_replaced(text@, from@, to@, 0) =~= words_replaced(
        text@,
        from@,
        to@,
        0,
    ));
    while i < n
        invariant
            cs@ == text@,
            pattern@ == from@,
            n == cs@.len(),
            m == pattern@.len(),
            m > 0,
            i <= n,
            result@ + words_replaced(text@, from@, to@, i as int) == words_replaced(
                text@,
                from@,
                to@,
                0,
            ),
        decreases n - i,
    {
        let ghost before = result@;
        if chars_occur_at(&cs, &pattern, i) {
            let before_ok = i == 0 || !is_id_char(cs[i - 1]);
            let after_ok = i + m >= n || !is_id_char(cs[i + m]);
            if before_ok && after_ok {
                result.append(to);
                assert(word_at(text@, from@, i as int));
                assert(before + words_replaced(text@, from@, to@, i as int) =~= result@
                    + words_replaced(text@, from@, to@, i + m));
                i += m;
                continue;
            }
        }
        result.push(cs[i]);
        assert(before + words_replaced(text@, from@, to@, i as int) =~= result@ + words_replaced(
            text@,
            from@,
            to@,
            i + 1,
        ));
        i += 1;
    }
    assert(result@ + Seq::empty() =~= result@);
    result
}

/// A text in which `from` does not stand is not changed.
pub proof fn law_absent_word_changes_nothing(text: Seq<char>, from: Seq<char>, to: Seq<char>)
    requires
        !text::contains_text(text, from),
    ensures
        word_replaced(text, from, to) == text,
{
    if from.len() > 0 {
        lemma_absent_suffix(text, from, to, 0);
        assert(text.skip(0) =~= text);
    }
}

proof fn lemma_absent_suffix(text: Seq<char>, from: Seq<char>, to: Seq<char>, i: int)
    requires
        from.len() > 0,
        !text::contains_text(text, from),
        0 <= i <= text.len(),
    ensures
        words_replaced(text, from, to, i) == text.skip(i),
    decreases text.len() - i,
{
    if i < text.len() {
        lemma_absent_suffix(text, from, to, i + 1);
        assert(!text::occurs_at(text, from, i));
        assert(seq![text[i]] + text.skip(i + 1) =~= text.skip(i));
    } else {
        assert(text.skip(i) =~= Seq::empty());
    }
}

/// An ASCII letter or digit, `-` or `_`: part of a word.
pub open spec fn plain_word_char(c: char) -> bool {
    ('a' <= c && c <= 'z') || ('A' <= c && c <= 'Z') || ('0' <= c && c <= '9') || c == '-' || c
        == '_'
}

/// A word is replaced: the text before it and after it stays. It stands between ASCII
/// characters that are no part of a word, or at an end of the text, and nowhere else.
pub proof fn law_word_is_replaced(
    before: Seq<char>,
    from: Seq<char>,
    after: Seq<char>,
    to: Seq<char>,
)
    requires
        from.len() > 0,
        before.len() > 0 ==> before.last() <= '\u{7f}' && !plain_word_char(before.last()),
        after.len() > 0 ==> after[0] <= '\u{7f}' && !plain_word_char(after[0]),
        forall|i: int| #[trigger]
            text::occurs_at(before + from + after, from, i) ==> i == before.len(),
    ensures
        word_replaced(before + from + after, from, to) == before + to + after,
{
    let text = before + from + after;
    let n = before.len() as int;
    assert(text.subrange(n, n + from.len()) =~= from);
    if n > 0 {
        assert(text[n - 1] == before.last());
    }
    if after.len() > 0 {
        assert(text[n + from.len()] == after[0]);
    }
    assert(word_at(text, from, n));
    lemma_no_word_up_to(text, from, to, 0, n);
    lemma_no_word_from(text, from, to, n + from.len());
    assert(text.subrange(0, n) =~= before);
    assert(text.skip(n + from.len()) =~= after);
    assert(before + (to + after) =~= before + to + after);
}

/// Every word is replaced, one after the other: what follows the first one is treated as
/// the text itself. The word begins with a letter, a digit, `-` or `_`, and stands between
/// ASCII characters that are no part of a word, or at the start of the text.
pub proof fn law_next_word_is_replaced(
    before: Seq<char>,
    from: Seq<char>,
    after: Seq<char>,
    to: Seq<char>,
)
    requires
        from.len() > 0,
        plain_word_char(from[0]),
        before.len() > 0 ==> before.last() <= '\u{7f}' && !plain_word_char(before.last()),
        after.len() > 0,
        after[0] <= '\u{7f}' && !plain_word_char(after[0]),
        forall|i: int| #[trigger]
            text::occurs_at(before + from + after, from, i) ==> i >= before.len(),
    ensures
        word_replaced(before + from + after, from, to) == before + to + word_replaced(
            after,
            from,
            to,
        ),
{
    let text = before + from + after;
    let n = before.len() as int;
    let m = n + from.len();
    assert(text.subrange(n, m) =~= from);
    if n > 0 {
        assert(text[n - 1] == before.last());
    }
    assert(text[m] == after[0]);
    assert(word_at(text, from, n));
    lemma_no_word_up_to(text, from, to, 0, n);
    assert(text.subrange(0, n) =~= before);
    lemma_words_in_rest(text, after, from, to, m, 0);
    assert(before + (to + words_replaced(after, from, to, 0)) =~= before + to + words_replaced(
        after,
        from,
        to,
        0,
    ));
}

proof fn lemma_words_in_rest(
    text: Seq<char>,
    rest: Seq<char>,
    from: Seq<char>,
    to: Seq<char>,
    m: int,
    i: int,
)
    requires
        from.len() > 0,
        0 <= m,
        m + rest.len() == text.len(),
        forall|k: int| 0 <= k < rest.len() ==> #[trigger] rest[k] == text[m + k],
        rest.len() > 0,
        rest[0] != from[0],
        0 <= i <= rest.len(),
    ensures
        words_replaced(text, from, to, m + i) == words_replaced(rest, from, to, i),
    decreases rest.len() - i,
{
    if i < rest.len() {
        assert(text::occurs_at(text, from, m + i) == text::occurs_at(rest, from, i)) by {
            if i + from.len() <= rest.len() {
                assert(text.subrange(m + i, m + i + from.len()) =~= rest.subrange(
                    i,
                    i + from.len(),
                ));
            }
        }
        if i == 0 && text::occurs_at(rest, from, 0) {
            assert(rest.subrange(0, from.len() as int)[0] == rest[0]);
        }
        if i > 0 {
            assert(rest[i - 1] == text[m + i - 1]);
        }
        if i + from.len() < rest.len() {
            assert(rest[i + from.len()] == text[m + i + from.len()]);
        }
        assert(rest[i] == text[m + i]);
        assert(word_at(text, from, m + i) == word_at(rest, from, i));
        if word_at(rest, from, i) {
            lemma_words_in_rest(text, rest, from, to, m, i + from.len());
        } else {
            lemma_words_in_rest(text, rest, from, to, m, i + 1);
        }
    }
}

/// Part of a word is never replaced: where an ASCII letter or digit, `-` or `_` stands
/// right before or after every `from`, the text stays.
pub proof fn law_part_of_word_stays(text: Seq<char>, from: Seq<char>, to: Seq<char>)
    requires
        forall|i: int| #[trigger]
            text::occurs_at(text, from, i) ==> (i > 0 && plain_word_char(text[i - 1])) || (i
                + from.len() < text.len() && plain_word_char(text[i + from.len()])),
    ensures
        word_replaced(text, from, to) == text,
{
    if from.len() > 0 {
        lemma_no_word_from(text, from, to, 0);
        assert(text.skip(0) =~= text);
    }
}

proof fn lemma_no_word_up_to(text: Seq<char>, from: Seq<char>, to: Seq<char>, i: int, n: int)
    requires
        from.len() > 0,
        0 <= i <= n <= text.len(),
        forall|k: int| i <= k < n ==> !#[trigger] word_at(text, from, k),
    ensures
        words_replaced(text, from, to, i) == text.subrange(i, n) + words_replaced(
            text,
            from,
            to,
            n,
        ),
    decreases n - i,
{
    if i < n {
        lemma_no_word_up_to(text, from, to, i + 1, n);
        assert(!word_at(text, from, i));
        assert(seq![text[i]] + text.subrange(i + 1, n) =~= text.subrange(i, n));
        assert(seq![text[i]] + (text.subrange(i + 1, n) + words_replaced(text, from, to, n))
            =~= text.subrange(i, n) + words_replaced(text, from, to, n));
    } else {
        assert(text.subrange(i, n) + words_replaced(text, from, to, n) =~= words_replaced(
            text,
            from,
            to,
            n,
        ));
    }
}

proof fn lemma_no_word_from(text: Seq<char>, from: Seq<char>, to: Seq<char>, i: int)
    requires
        from.len() > 0,
        0 <= i <= text.len(),
        forall|k: int| i <= k < text.len() ==> !#[trigger] word_at(text, from, k),
    ensures
        words_replaced(text, from, to, i) == text.skip(i),
{
    lemma_no_word_up_to(text, from, to, i, text.len() as int);
    assert(text.subrange(i, text.len() as int) + Seq::empty() =~= text.skip(i));
}

/// `s` with `p` put after the last pair whose first text is not shorter.
pub open spec fn put_by_length(
    s: Seq<(Seq<char>, Seq<char>)>,
    p: (Seq<char>, Seq<char>),
) -> Seq<(Seq<char>, Seq<char>)>
    decreases s.len(),
{
    if s.len() > 0 && text::byte_len(s.last().0) < text::byte_len(p.0) {
        put_by_length(s.drop_last(), p).push(s.last())
    } else {
        s.push(p)
    }
}

/// The pairs with the longest first text first; of equal lengths in their order.
pub open spec fn longest_first(s: Seq<(Seq<char>, Seq<char>)>) -> Seq<(Seq<char>, Seq<char>)>
    decreases s.len(),
{
    if s.len() == 0 {
        Seq::empty()
    } else {
        put_by_length(longest_first(s.drop_last()), s.last())
    }
}

proof fn lemma_put_by_length(s: Seq<(Seq<char>, Seq<char>)>, p: (Seq<char>, Seq<char>))
    requires
        forall|i: int, j: int|
            #![trigger s[i], s[j]]
            0 <= i < j < s.len() ==> text::byte_len(s[j].0) <= text::byte_len(s[i].0),
    ensures
        forall|i: int, j: int|
            #![trigger put_by_length(s, p)[i], put_by_length(s, p)[j]]
            0 <= i < j < put_by_length(s, p).len() ==> text::byte_len(put_by_length(s, p)[j].0)
                <= text::byte_len(put_by_length(s, p)[i].0),
        put_by_length(s, p).to_multiset() == s.to_multiset().insert(p),
        s.len() > 0 && text::byte_len(p.0) <= text::byte_len(s[0].0) ==> put_by_length(s, p)[0] == s[0],
        forall|i: int|
            0 <= i < put_by_length(s, p).len() ==> text::byte_len(
                (#[trigger] put_by_length(s, p)[i]).0,
            ) <= text::byte_len(p.0) || (s.len() > 0 && text::byte_len(put_by_length(s, p)[i].0) <= text::byte_len(
                s[0].0,
            )),
    decreases s.len(),
{
    broadcast use vstd::seq_lib::group_to_multiset_ensures;

    let r = put_by_length(s, p);
    if s.len() > 0 && text::byte_len(s.last().0) < text::byte_len(p.0) {
        let t = s.drop_last();
        let last = s[s.len() - 1];
        let u = put_by_length(t, p);
        assert forall|i: int, j: int|
            #![trigger t[i], t[j]]
            0 <= i < j < t.len() implies text::byte_len(t[j].0) <= text::byte_len(t[i].0) by {
            assert(t[i] == s[i] && t[j] == s[j]);
        }
        lemma_put_by_length(t, p);
        assert(s =~= t.push(last));
        assert(r.to_multiset() =~= s.to_multiset().insert(p));
        lemma_put_members(t, p);
        assert forall|i: int, j: int|
            #![trigger r[i], r[j]]
            0 <= i < j < r.len() implies text::byte_len(r[j].0) <= text::byte_len(r[i].0) by {
            assert(r[i] == u[i]);
            if j < u.len() {
                assert(r[j] == u[j]);
            } else {
                assert(r[j] == last);
                if u[i] != p {
                    let k = t.index_of(u[i]);
                    assert(t[k] == u[i]);
                    assert(s[k] == u[i]);
                }
            }
        }
        if t.len() > 0 {
            assert(t[0] == s[0]);
            if text::byte_len(p.0) <= text::byte_len(s[0].0) {
                assert(r[0] == u[0]);
            }
        }
        assert forall|i: int| 0 <= i < r.len() implies text::byte_len((#[trigger] r[i]).0) <= text::byte_len(
            p.0,
        ) || (s.len() > 0 && text::byte_len(r[i].0) <= text::byte_len(s[0].0)) by {
            if i < u.len() {
                assert(r[i] == u[i]);
            } else {
                assert(r[i] == last);
            }
        }
    } else {
        assert forall|i: int, j: int|
            #![trigger r[i], r[j]]
            0 <= i < j < r.len() implies text::byte_len(r[j].0) <= text::byte_len(r[i].0) by {
            assert(r[i] == s[i]);
            if j < s.len() {
                assert(r[j] == s[j]);
            } else if i < s.len() - 1 {
                assert(text::byte_len(s[s.len() - 1].0) <= text::byte_len(s[i].0));
            }
        }
        assert forall|i: int| 0 <= i < r.len() implies text::byte_len((#[trigger] r[i]).0) <= text::byte_len(
            p.0,
        ) || (s.len() > 0 && text::byte_len(r[i].0) <= text::byte_len(s[0].0)) by {
            if i < s.len() {
                assert(r[i] == s[i]);
                if i > 0 {
                    assert(text::byte_len(s[i].0) <= text::byte_len(s[0].0));
                }
            }
        }
    }
}

proof fn lemma_put_members(s: Seq<(Seq<char>, Seq<char>)>, p: (Seq<char>, Seq<char>))
    ensures
        forall|i: int|
            0 <= i < put_by_length(s, p).len() ==> #[trigger] put_by_length(s, p)[i] == p
                || s.contains(put_by_length(s, p)[i]),
    decreases s.len(),
{
    let r = put_by_length(s, p);
    if s.len() > 0 && text::byte_len(s.last().0) < text::byte_len(p.0) {
        let t = s.drop_last();
        let u = put_by_length(t, p);
        lemma_put_members(t, p);
        assert forall|i: int| 0 <= i < r.len() implies #[trigger] r[i] == p || s.contains(r[i]) by {
            if i < u.len() {
                assert(r[i] == u[i]);
                if u[i] != p {
                    let k = t.index_of(u[i]);
                    assert(t[k] == u[i]);
                    assert(s[k] == r[i]);
                }
            } else {
                assert(s[s.len() - 1] == r[i]);
            }
        }
    } else {
        assert forall|i: int| 0 <= i < r.len() implies #[trigger] r[i] == p || s.contains(r[i]) by {
            if i < s.len() {
                assert(s[i] == r[i]);
            }
        }
    }
}

/// Longer texts come first, and none is added or dropped.
pub proof fn law_longest_first(s: Seq<(Seq<char>, Seq<char>)>)
    ensures
        forall|i: int, j: int|
            #![trigger longest_first(s)[i], longest_first(s)[j]]
            0 <= i < j < longest_first(s).len() ==> text::byte_len(longest_first(s)[j].0) <= text::byte_len(
                longest_first(s)[i].0,
            ),
        longest_first(s).to_multiset() == s.to_multiset(),
    decreases s.len(),
{
    broadcast use vstd::seq_lib::group_to_multiset_ensures;

    if s.len() > 0 {
        let t = s.drop_last();
        law_longest_first(t);
        lemma_put_by_length(longest_first(t), s.last());
        assert(s =~= t.push(s.last()));
        assert(longest_first(s).to_multiset() =~= s.to_multiset());
    } else {
        assert(s =~= Seq::empty());
    }
}

/// `text` with the replacements done one after the other.
pub open spec fn all_replaced(text: Seq<char>, pairs: Seq<(Seq<char>, Seq<char>)>) -> Seq<char>
    decreases pairs.len(),
{
    if pairs.len() == 0 {
        text
    } else {
        word_replaced(all_replaced(text, pairs.drop_last()), pairs.last().0, pairs.last().1)
    }
}

/// `text` with the substitutions done at word boundaries, the longest first.
pub open spec fn text_substituted(text: Seq<char>, subs: Map<Seq<char>, Seq<char>>) -> Seq<char> {
    all_replaced(text, longest_first(ordmap::sorted_pairs::<String, Seq<char>>(subs)))
}

/// A single substitution is done at word boundaries.
pub proof fn lemma_one_substitution(text: Seq<char>, from: Seq<char>, to: Seq<char>)
    ensures
        text_substituted(text, Map::<Seq<char>, Seq<char>>::empty().insert(from, to))
            == word_replaced(text, from, to),
{
    let subs = Map::<Seq<char>, Seq<char>>::empty().insert(from, to);
    let ps = seq![(from, to)];
    assert(ordmap::ascending::<String, Seq<char>>(ps));
    assert(ps[0].0 == from);
    assert forall|k: Seq<char>| ordmap::has_key(ps, k) == (k == from) by {
        if ordmap::has_key(ps, k) {
            let i = ordmap::key_index(ps, k);
            assert(ps[i].0 == k);
        }
    }
    assert(ordmap::has_key(ps, from));
    assert(ps[ordmap::key_index(ps, from)].0 == from);
    assert(ordmap::pairs_map(ps) =~= subs);
    ordmap::lemma_sorted_pairs::<String, Seq<char>>(ps);
    let none = Seq::<(Seq<char>, Seq<char>)>::empty();
    assert(ps.drop_last() =~= none);
    assert(longest_first(none) == none);
    assert(longest_first(ps) =~= ps);
    assert(all_replaced(text, none) == text);
}

/// Of two substitutions the one of the longer value is done first.
pub proof fn law_longer_value_first(
    text: Seq<char>,
    long: Seq<char>,
    to_long: Seq<char>,
    short: Seq<char>,
    to_short: Seq<char>,
)
    requires
        text::byte_len(short) < text::byte_len(long),
    ensures
        text_substituted(
            text,
            Map::<Seq<char>, Seq<char>>::empty().insert(long, to_long).insert(short, to_short),
        ) == word_replaced(word_replaced(text, long, to_long), short, to_short),
{
    let subs = Map::<Seq<char>, Seq<char>>::empty().insert(long, to_long).insert(short, to_short);
    let a = (long, to_long);
    let b = (short, to_short);
    text::lemma_text_lt_total(long, short);
    let ps = if text::text_lt(long, short) {
        seq![a, b]
    } else {
        seq![b, a]
    };
    assert(ordmap::ascending::<String, Seq<char>>(ps));
    assert(ps[0] == a || ps[0] == b);
    assert(ps[1] == a || ps[1] == b);
    ordmap::lemma_pairs_map::<String, Seq<char>>(ps);
    let pm = ordmap::pairs_map(ps);
    assert(pm[ps[0].0] == ps[0].1 && pm[ps[1].0] == ps[1].1);
    assert forall|k: Seq<char>| #[trigger] pm.contains_key(k) == subs.contains_key(k) by {
        if pm.contains_key(k) {
            let i = ordmap::key_index(ps, k);
            assert(ordmap::has_key(ps, k));
            assert(ps[i].0 == k);
        }
    }
    assert(pm =~= subs);
    ordmap::lemma_sorted_pairs::<String, Seq<char>>(ps);
    let none = Seq::<(Seq<char>, Seq<char>)>::empty();
    let one = ps.drop_last();
    assert(one =~= seq![ps[0]]);
    assert(one.drop_last() =~= none);
    assert(longest_first(none) == none);
    assert(longest_first(one) =~= one);
    reveal_with_fuel(put_by_length, 2);
    assert(longest_first(ps) =~= seq![a, b]);
    let both = seq![a, b];
    assert(both.drop_last() =~= seq![a]);
    assert(seq![a].drop_last() =~= none);
    assert(all_replaced(text, none) == text);
    assert(all_replaced(text, seq![a]) == word_replaced(text, long, to_long));
}

fn insert_by_length(sorted: &mut Vec<(String, String)>, p: (String, String))
    ensures
        final(sorted).deep_view() == put_by_length(old(sorted).deep_view(), p.deep_view()),
{
    let ghost s = sorted.deep_view();
    let ghost pv = p.deep_view();
    let mut i: usize = sorted.len();
    assert(s.take(i as int) =~= s);
    assert(put_by_length(s, pv) + s.skip(i as int) =~= put_by_length(s, pv));
    while i > 0 && text::byte_length(sorted[i - 1].0.as_str()) < text::byte_length(p.0.as_str())
        invariant
            i <= sorted@.len(),
            s == sorted.deep_view(),
            pv == p.deep_view(),
            put_by_length(s, pv) == put_by_length(s.take(i as int), pv) + s.skip(i as int),
        decreases i,
    {
        proof {
            let t = s.take(i as int);
            assert(t.last() == s[i - 1]);
            assert(t.drop_last() =~= s.take(i - 1));
            assert(put_by_length(t, pv) + s.skip(i as int) =~= put_by_length(s.take(i - 1), pv)
                + s.skip(i - 1));
        }
        i -= 1;
    }
    proof {
        let t = s.take(i as int);
        if i > 0 {
            assert(t.last() == s[i - 1]);
        }
        assert(put_by_length(t, pv) == t.push(pv));
    }
    sorted.insert(i, p);
    assert(sorted.deep_view() =~= s.take(i as int).push(pv) + s.skip(i as int));
}

/// Does the substitutions in a plain text at word boundaries, the longest first.
pub fn substitute_in_text(text: &str, subs: &OrdMap<String, String>) -> (r: String)
    ensures
        r@ == text_substituted(text@, subs.deep_view()),
{
    let n = subs.len();
    let ghost ps = ordmap::deep_pairs(subs.pairs());
    proof {
        ordmap::lemma_deep_pairs::<String, String>(subs.pairs());
    }
    let mut sorted: Vec<(String, String)> = Vec::new();
    let mut i: usize = 0;
    assert(sorted.deep_view() =~= Seq::empty());
    assert(ps.take(0) =~= Seq::empty());
    while i < n
        invariant
            n == subs.pairs().len(),
            i <= n,
            ps == ordmap::deep_pairs(subs.pairs()),
            sorted.deep_view() == longest_first(ps.take(i as int)),
        decreases n - i,
    {
        insert_by_length(&mut sorted, (subs.key_at(i).clone(), subs.value_at(i).clone()));
        proof {
            let t = ps.take(i + 1);
            assert(t.drop_last() =~= ps.take(i as int));
            assert(t.last() == ps[i as int]);
        }
        i += 1;
    }
    assert(ps.take(i as int) =~= ps);
    let ghost ss = sorted.deep_view();
    let mut result = text.to_owned();
    let mut k: usize = 0;
    assert(ss.take(0) =~= Seq::empty());
    while k < sorted.len()
        invariant
            ss == sorted.deep_view(),
            k <= sorted@.len(),
            result@ == all_replaced(text@, ss.take(k as int)),
        decreases sorted@.len() - k,
    {
        result = replace_at_word_boundary(
            result.as_str(),
            sorted[k].0.as_str(),
            sorted[k].1.as_str(),
        );
        proof {
            let t = ss.take(k + 1);
            assert(t.drop_last() =~= ss.take(k as int));
            assert(t.last() == sorted@[k as int].deep_view());
        }
        k += 1;
    }
    assert(ss.take(k as int) =~= ss);
    result
}

/// A response body with the substitutions done: in the string values of a JSON
/// body, at word boundaries of any other.
pub open spec fn body_substituted(body: Seq<char>, subs: Map<Seq<char>, Seq<char>>) -> Seq<char> {
    if subs == Map::<Seq<char>, Seq<char>>::empty() {
        body
    } else {
        match json::json_in(body) {
            Some(m) => match json::json_text(substituted(m, subs)) {
                Some(s) => s,
                None => text_substituted(body, subs),
            },
            None => text_substituted(body, subs),
        }
    }
}

/// Does the substitutions in a response body: in the string values of a JSON body,
/// at word boundaries of any other.
pub fn apply_substitutions_to_json(body: &str, subs: &OrdMap<String, String>) -> (r: String)
    ensures
        r@ == body_substituted(body@, subs.deep_view()),
{
    if subs.is_empty() {
        assert(subs.deep_view() =~= Map::empty());
        return body.to_owned();
    }
    proof {
        if subs.deep_view() == Map::<Seq<char>, Seq<char>>::empty() {
            assert(subs.deep_view().dom() =~= subs@.dom());
            assert(subs@ =~= Map::empty());
        }
    }
    if let Some(parsed) = Json::parse(body) {
        let mut val = parsed;
        substitute_in_json(&mut val, subs);
        if let Some(s) = val.render() {
            return s;
        }
    }
    substitute_in_text(body, subs)
}

} // verus!
