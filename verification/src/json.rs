//! JSON values, parsed and rendered by `serde_json`.
use crate::dup::Dup;
use crate::ordmap::OrdMap;
use crate::ordmap;
use crate::numbers;
use vstd::prelude::*;

verus! {

// ─── Declared types ──────────────────────────────────────────────────────────

/// `serde_json::Value`, a JSON document.
#[verifier::external_type_specification]
#[verifier::external_body]
pub struct ExValue(serde_json::Value);

/// `serde_json::Number`, a JSON number.
#[verifier::external_type_specification]
#[verifier::external_body]
pub struct ExNumber(serde_json::Number);

// ─── Model ───────────────────────────────────────────────────────────────────

/// What a JSON document stands for. A number is its text, an object its members
/// in ascending key order.
pub enum JsonModel {
    Null,
    Bool(bool),
    Number(Seq<char>),
    Str(Seq<char>),
    Array(Seq<JsonModel>),
    Object(Seq<(Seq<char>, JsonModel)>),
}

/// A JSON value.
pub enum Json {
    Null,
    Bool(bool),
    Number(serde_json::Number),
    Str(String),
    Array(Vec<Json>),
    Object(OrdMap<String, Json>),
}

impl Json {
    /// What the value stands for.
    pub open spec fn model(self) -> JsonModel
        decreases self,
    {
        match self {
            Json::Null => JsonModel::Null,
            Json::Bool(b) => JsonModel::Bool(b),
            Json::Number(n) => JsonModel::Number(number_text(n)),
            Json::Str(s) => JsonModel::Str(s@),
            Json::Array(v) => JsonModel::Array(
                Seq::new(
                    v@.len(),
                    |i: int|
                        if 0 <= i < v@.len() {
                            v@[i].model()
                        } else {
                            JsonModel::Null
                        },
                ),
            ),
            Json::Object(m) => JsonModel::Object(
                Seq::new(
                    m.pairs().len(),
                    |i: int|
                        if 0 <= i < m.pairs().len() {
                            proof {
                                ordmap::lemma_value_is_smaller(m, i);
                            }
                            (m.pairs()[i].0, m.pairs()[i].1.model())
                        } else {
                            (Seq::empty(), JsonModel::Null)
                        },
                ),
            ),
        }
    }
}

impl DeepView for Json {
    type V = JsonModel;

    open spec fn deep_view(&self) -> JsonModel {
        self.model()
    }
}

// ─── Calls into serde_json ───────────────────────────────────────────────────

/// The text that a `serde_json::Number` prints as.
pub uninterp spec fn number_text(n: serde_json::Number) -> Seq<char>;

/// What a `serde_json::Value` holds.
pub uninterp spec fn value_model(v: serde_json::Value) -> JsonModel;

/// What `serde_json::from_str::<serde_json::Value>` reads from a text that is not
/// the literal of a plain text, if it is JSON.
pub uninterp spec fn parsed_json(text: Seq<char>) -> Option<JsonModel>;

/// What `serde_json::to_string` writes for a document that is not a plain text, if
/// it succeeds.
pub uninterp spec fn rendered_json(m: JsonModel) -> Option<Seq<char>>;

/// A text that stands in a JSON string literal as it is: no quote, backslash or
/// control character.
pub open spec fn is_plain(s: Seq<char>) -> bool {
    forall|i: int|
        0 <= i < s.len() ==> ' ' <= #[trigger] s[i] && s[i] != '"' && s[i] != '\\'
}

/// A string that stands in its literal as it is.
pub open spec fn is_plain_string(m: JsonModel) -> bool {
    m is Str && is_plain(m->Str_0)
}

/// `s` between quotes.
pub open spec fn quoted(s: Seq<char>) -> Seq<char> {
    seq!['"'] + s + seq!['"']
}

/// The JSON literal of a plain text.
pub open spec fn is_plain_literal(text: Seq<char>) -> bool {
    text.len() >= 2 && text == quoted(text.subrange(1, text.len() - 1)) && is_plain(
        text.subrange(1, text.len() - 1),
    )
}

/// The document that a text holds, if it is JSON. The literal of a plain text
/// holds that text; of any other text `serde_json` decides.
pub open spec fn json_in(text: Seq<char>) -> Option<JsonModel> {
    if is_plain_literal(text) {
        Some(JsonModel::Str(text.subrange(1, text.len() - 1)))
    } else {
        parsed_json(text)
    }
}

/// The text of a document, if it can be written. A plain text is written between
/// quotes; any other document as `serde_json` writes it.
pub open spec fn json_text(m: JsonModel) -> Option<Seq<char>> {
    if is_plain_string(m) {
        Some(quoted(m->Str_0))
    } else {
        rendered_json(m)
    }
}

/// What is written for a plain text is read back as that text.
pub proof fn law_plain_text_round_trip(s: Seq<char>)
    requires
        is_plain(s),
    ensures
        json_text(JsonModel::Str(s)) == Some(quoted(s)),
        json_in(quoted(s)) == Some(JsonModel::Str(s)),
{
    let text = quoted(s);
    assert(text.subrange(1, text.len() - 1) =~= s);
}

/// `serde_json::Number::to_string`: the number's text.
#[verifier::external_body]
fn print_number(n: &serde_json::Number) -> (r: String)
    ensures
        r@ == number_text(*n),
{
    n.to_string()
}

/// `serde_json::Number::from` on a `u64`: a number that prints as the decimal
/// digits of `n`.
#[verifier::external_body]
fn number_from(n: u64) -> (r: serde_json::Number)
    ensures
        number_text(r) == numbers::decimal(n as nat),
{
    serde_json::Number::from(n)
}

/// `serde_json::Number` clones to the same number.
pub assume_specification[ <serde_json::Number as Clone>::clone ](
    n: &serde_json::Number,
) -> (r: serde_json::Number)
    ensures
        r == *n,
;

/// `serde_json::from_str` into a `serde_json::Value`: the document that the text
/// holds, or nothing if the text is no JSON. A string literal without escapes
/// holds the text between its quotes.
#[verifier::external_body]
fn read_value(text: &str) -> (r: Option<serde_json::Value>)
    ensures
        is_plain_literal(text@) ==> r is Some && value_model(r->0) == JsonModel::Str(
            text@.subrange(1, text@.len() - 1),
        ),
        !is_plain_literal(text@) ==> (match r {
            Some(v) => parsed_json(text@) == Some(value_model(v)),
            None => parsed_json(text@) is None,
        }),
{
    serde_json::from_str(text).ok()
}

/// `serde_json::to_string` of a `serde_json::Value`, which never fails: its keys are
/// strings and its numbers are finite. A string without a quote, a backslash or a
/// control character is written as it is between quotes.
#[verifier::external_body]
fn write_value(v: &serde_json::Value) -> (r: Option<String>)
    ensures
        r is Some,
        is_plain_string(value_model(*v)) ==> r->0@ == quoted(value_model(*v)->Str_0),
        !is_plain_string(value_model(*v)) ==> rendered_json(value_model(*v)) == Some(r->0@),
{
    serde_json::to_string(v).ok()
}

/// The top level of a `serde_json::Value`.
pub enum JsonNode {
    Null,
    Bool(bool),
    Number(serde_json::Number),
    Str(String),
    Array(Vec<serde_json::Value>),
    Object(Vec<(String, serde_json::Value)>),
}

impl JsonNode {
    /// What the node stands for.
    pub open spec fn model(self) -> JsonModel {
        match self {
            JsonNode::Null => JsonModel::Null,
            JsonNode::Bool(b) => JsonModel::Bool(b),
            JsonNode::Number(n) => JsonModel::Number(number_text(n)),
            JsonNode::Str(s) => JsonModel::Str(s@),
            JsonNode::Array(v) => JsonModel::Array(
                Seq::new(v@.len(), |i: int| value_model(v@[i])),
            ),
            JsonNode::Object(es) => JsonModel::Object(
                Seq::new(es@.len(), |i: int| (es@[i].0@, value_model(es@[i].1))),
            ),
        }
    }

    /// The members of an object are in ascending key order.
    pub open spec fn sorted(self) -> bool {
        self matches JsonNode::Object(es) ==> ordmap::ascending::<String, serde_json::Value>(
            ordmap::entry_pairs::<String, serde_json::Value>(es@),
        )
    }
}

/// The variants of `serde_json::Value`, with the members of an object in the
/// order in which `serde_json::Map` yields them, which is ascending by key.
#[verifier::external_body]
fn open_value(v: serde_json::Value) -> (r: JsonNode)
    ensures
        r.model() == value_model(v),
        r.sorted(),
{
    match v {
        serde_json::Value::Null => JsonNode::Null,
        serde_json::Value::Bool(b) => JsonNode::Bool(b),
        serde_json::Value::Number(n) => JsonNode::Number(n),
        serde_json::Value::String(s) => JsonNode::Str(s),
        serde_json::Value::Array(a) => JsonNode::Array(a),
        serde_json::Value::Object(m) => JsonNode::Object(m.into_iter().collect()),
    }
}

/// The `serde_json::Value` with the given top level; `serde_json::Map` keeps the
/// members of an object in ascending key order.
#[verifier::external_body]
fn close_value(n: JsonNode) -> (r: serde_json::Value)
    requires
        n.sorted(),
    ensures
        value_model(r) == n.model(),
{
    match n {
        JsonNode::Null => serde_json::Value::Null,
        JsonNode::Bool(b) => serde_json::Value::Bool(b),
        JsonNode::Number(x) => serde_json::Value::Number(x),
        JsonNode::Str(s) => serde_json::Value::String(s),
        JsonNode::Array(a) => serde_json::Value::Array(a),
        JsonNode::Object(es) => serde_json::Value::Object(es.into_iter().collect()),
    }
}

// ─── Conversions ─────────────────────────────────────────────────────────────

#[verifier::loop_isolation(false)]
fn json_of_value(v: serde_json::Value) -> (r: Json)
    ensures
        r.model() == value_model(v),
    decreases value_model(v),
{
    let ghost whole = value_model(v);
    match open_value(v) {
        JsonNode::Null => Json::Null,
        JsonNode::Bool(b) => Json::Bool(b),
        JsonNode::Number(n) => Json::Number(n),
        JsonNode::Str(s) => Json::Str(s),
        JsonNode::Array(vs) => {
            let ghost all = vs@;
            let mut out: Vec<Json> = Vec::new();
            for x in it: vs.into_iter()
                invariant
                    it.seq() == all,
                    whole matches JsonModel::Array(ms) && ms.len() == all.len() && (forall|i: int|
                        0 <= i < all.len() ==> #[trigger] ms[i] == value_model(all[i])),
                    out@.len() == it.index(),
                    forall|i: int|
                        0 <= i < it.index() ==> #[trigger] out@[i].model() == value_model(all[i]),
            {
                proof {
                    let ms = whole->Array_0;
                    assert(ms[it.index() as int] == value_model(x));
                    assert(decreases_to!(whole => ms[it.index() as int]));
                }
                out.push(json_of_value(x));
            }
            let ghost outs = out@;
            let r = Json::Array(out);
            proof {
                let ms = r.model()->Array_0;
                assert forall|i: int| 0 <= i < ms.len() implies ms[i] == whole->Array_0[i] by {
                    assert(outs[i].model() == value_model(all[i]));
                }
                assert(ms =~= whole->Array_0);
            }
            r
        },
        JsonNode::Object(es) => {
            let ghost all = es@;
            let mut out: Vec<(String, Json)> = Vec::new();
            for e in it: es.into_iter()
                invariant
                    it.seq() == all,
                    whole matches JsonModel::Object(ms) && ms.len() == all.len() && (forall|i: int|
                        0 <= i < all.len() ==> #[trigger] ms[i] == (
                            all[i].0@,
                            value_model(all[i].1),
                        )),
                    out@.len() == it.index(),
                    forall|i: int|
                        #![trigger out@[i]]
                        0 <= i < it.index() ==> out@[i].0@ == all[i].0@ && out@[i].1.model()
                            == value_model(all[i].1),
            {
                proof {
                    let ms = whole->Object_0;
                    assert(ms[it.index() as int] == (e.0@, value_model(e.1)));
                    assert(decreases_to!(whole => ms[it.index() as int].1));
                }
                out.push((e.0, json_of_value(e.1)));
            }
            let ghost a = ordmap::entry_pairs::<String, serde_json::Value>(all);
            let ghost b = ordmap::entry_pairs::<String, Json>(out@);
            proof {
                assert forall|i: int, j: int|
                    #![trigger b[i], b[j]]
                    0 <= i < j < b.len() implies <String as crate::ordmap::OrdKey>::key_lt(
                    b[i].0,
                    b[j].0,
                ) by {
                    assert(b[i].0 == out@[i].0@ && b[j].0 == out@[j].0@);
                    assert(b[i].0 == a[i].0 && b[j].0 == a[j].0);
                }
            }
            let r = Json::Object(OrdMap::from_ascending(out));
            proof {
                let ms = r.model()->Object_0;
                assert forall|i: int| 0 <= i < ms.len() implies ms[i] == whole->Object_0[i] by {
                    assert(b[i].0 == out@[i].0@);
                    assert(b[i].1 == out@[i].1);
                }
                assert(ms =~= whole->Object_0);
            }
            r
        },
    }
}

impl Json {
    #[verifier::loop_isolation(false)]
    fn to_value(&self) -> (r: serde_json::Value)
        ensures
            value_model(r) == self.model(),
        decreases self,
    {
        match self {
            Json::Null => close_value(JsonNode::Null),
            Json::Bool(b) => close_value(JsonNode::Bool(*b)),
            Json::Number(n) => close_value(JsonNode::Number(n.clone())),
            Json::Str(s) => close_value(JsonNode::Str(s.clone())),
            Json::Array(v) => {
                let mut out: Vec<serde_json::Value> = Vec::new();
                let mut i: usize = 0;
                while i < v.len()
                    invariant
                        *self == Json::Array(*v),
                        i <= v@.len(),
                        out@.len() == i,
                        forall|j: int|
                            0 <= j < i ==> #[trigger] value_model(out@[j]) == v@[j].model(),
                    decreases v@.len() - i,
                {
                    proof {
                        assert(decreases_to!(*self => *v));
                        assert(decreases_to!(v@ => v@[i as int]));
                    }
                    out.push(v[i].to_value());
                    i += 1;
                }
                let node = JsonNode::Array(out);
                assert(node.model()->Array_0 =~= self.model()->Array_0);
                close_value(node)
            },
            Json::Object(m) => {
                let n = m.len();
                let mut out: Vec<(String, serde_json::Value)> = Vec::new();
                let mut i: usize = 0;
                while i < n
                    invariant
                        *self == Json::Object(*m),
                        n == m.pairs().len(),
                        i <= n,
                        out@.len() == i,
                        forall|j: int|
                            #![trigger out@[j]]
                            0 <= j < i ==> out@[j].0@ == m.pairs()[j].0 && value_model(out@[j].1)
                                == m.pairs()[j].1.model(),
                    decreases n - i,
                {
                    proof {
                        assert(decreases_to!(*self => *m));
                        ordmap::lemma_value_is_smaller(*m, i as int);
                    }
                    out.push((m.key_at(i).clone(), m.value_at(i).to_value()));
                    i += 1;
                }
                let ghost b = ordmap::entry_pairs::<String, serde_json::Value>(out@);
                proof {
                    assert forall|i: int, j: int|
                        #![trigger b[i], b[j]]
                        0 <= i < j < b.len() implies <String as crate::ordmap::OrdKey>::key_lt(
                        b[i].0,
                        b[j].0,
                    ) by {
                        assert(b[i].0 == out@[i].0@ && b[j].0 == out@[j].0@);
                        assert(b[i].0 == m.pairs()[i].0 && b[j].0 == m.pairs()[j].0);
                    }
                }
                let node = JsonNode::Object(out);
                assert(node.model()->Object_0 =~= self.model()->Object_0);
                close_value(node)
            },
        }
    }

    /// Reads a JSON text. `None` if the text is no JSON.
    pub fn parse(text: &str) -> (r: Option<Json>)
        ensures
            match r {
                Some(j) => json_in(text@) == Some(j.model()),
                None => json_in(text@) is None,
            },
    {
        match read_value(text) {
            Some(v) => Some(json_of_value(v)),
            None => None,
        }
    }

    /// Writes the value as compact JSON text.
    pub fn render(&self) -> (r: Option<String>)
        ensures
            r is Some,
            json_text(self.model()) == Some(r->0@),
    {
        let v = self.to_value();
        write_value(&v)
    }

    /// The number `n`.
    pub fn from_u64(n: u64) -> (r: Json)
        ensures
            r.model() == JsonModel::Number(numbers::decimal(n as nat)),
    {
        Json::Number(number_from(n))
    }

    /// The text of a number.
    pub fn number_string(n: &serde_json::Number) -> (r: String)
        ensures
            r@ == number_text(*n),
    {
        print_number(n)
    }
}

impl Dup for Json {
    #[verifier::loop_isolation(false)]
    fn dup(&self) -> (r: Self)
        decreases self,
    {
        match self {
            Json::Null => Json::Null,
            Json::Bool(b) => Json::Bool(*b),
            Json::Number(n) => Json::Number(n.clone()),
            Json::Str(s) => Json::Str(s.clone()),
            Json::Array(v) => {
                let mut out: Vec<Json> = Vec::new();
                let mut i: usize = 0;
                while i < v.len()
                    invariant
                        *self == Json::Array(*v),
                        i <= v@.len(),
                        out@.len() == i,
                        forall|j: int|
                            0 <= j < i ==> #[trigger] out@[j].model() == v@[j].model(),
                    decreases v@.len() - i,
                {
                    proof {
                        assert(decreases_to!(*self => *v));
                        assert(decreases_to!(v@ => v@[i as int]));
                    }
                    out.push(v[i].dup());
                    i += 1;
                }
                let ghost outs = out@;
                let r = Json::Array(out);
                proof {
                    let ms = r.model()->Array_0;
                    assert forall|i: int| 0 <= i < ms.len() implies ms[i] == self.model()->Array_0[i] by {
                        assert(outs[i].model() == v@[i].model());
                    }
                    assert(ms =~= self.model()->Array_0);
                }
                r
            },
            Json::Object(m) => {
                let n = m.len();
                let mut out: Vec<(String, Json)> = Vec::new();
                let mut i: usize = 0;
                while i < n
                    invariant
                        *self == Json::Object(*m),
                        n == m.pairs().len(),
                        i <= n,
                        out@.len() == i,
                        forall|j: int|
                            #![trigger out@[j]]
                            0 <= j < i ==> out@[j].0@ == m.pairs()[j].0 && out@[j].1.model()
                                == m.pairs()[j].1.model(),
                    decreases n - i,
                {
                    proof {
                        assert(decreases_to!(*self => *m));
                        ordmap::lemma_value_is_smaller(*m, i as int);
                    }
                    out.push((m.key_at(i).clone(), m.value_at(i).dup()));
                    i += 1;
                }
                let ghost b = ordmap::entry_pairs::<String, Json>(out@);
                proof {
                    assert forall|i: int, j: int|
                        #![trigger b[i], b[j]]
                        0 <= i < j < b.len() implies <String as crate::ordmap::OrdKey>::key_lt(
                        b[i].0,
                        b[j].0,
                    ) by {
                        assert(b[i].0 == out@[i].0@ && b[j].0 == out@[j].0@);
                        assert(b[i].0 == m.pairs()[i].0 && b[j].0 == m.pairs()[j].0);
                    }
                }
                let r = Json::Object(OrdMap::from_ascending(out));
                proof {
                    let ms = r.model()->Object_0;
                    assert forall|i: int| 0 <= i < ms.len() implies ms[i]
                        == self.model()->Object_0[i] by {
                        assert(b[i].0 == out@[i].0@);
                        assert(b[i].1 == out@[i].1);
                    }
                    assert(ms =~= self.model()->Object_0);
                }
                r
            },
        }
    }
}

} // verus!
