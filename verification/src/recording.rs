//! What is recorded of an exchange with an upstream, and what is kept out.
use crate::chars;
use crate::chars::trim;
use crate::dup::Dup;
use crate::numbers;
use crate::numbers::decimal_text;
use crate::numbers::signed_decimal_text;
use crate::ordmap;
use crate::ordmap::OrdMap;
use crate::routing::RoutedRequest;
use crate::routing::RoutedRequestView;
use crate::text;
use crate::text::same_text;
use crate::text::split_text;
use crate::timestamps;
use crate::timestamps::Timestamp;
use crate::types::MockEntry;
use crate::types::MockEntryView;
use crate::types::MockRequest;
use crate::types::MockRequestView;
use crate::types::MockResponse;
use crate::types::MockResponseView;
use vstd::prelude::*;
use vstd::string::StringExecFns;

verus! {

// ─── Bodies ──────────────────────────────────────────────────────────────────

/// What `String::from_utf8_lossy` makes of bytes that are not UTF-8.
pub uninterp spec fn lossy_utf8(bytes: Seq<u8>) -> Seq<char>;

/// `String::from_utf8_lossy`: the text that the bytes encode if they are UTF-8. Of
/// other bytes it is only said that the result depends on them alone.
#[verifier::external_body]
fn read_lossy(bytes: &[u8]) -> (r: String)
    ensures
        vstd::utf8::valid_utf8(bytes@) ==> r@ == vstd::utf8::decode_utf8(bytes@),
        !vstd::utf8::valid_utf8(bytes@) ==> r@ == lossy_utf8(bytes@),
{
    String::from_utf8_lossy(bytes).into_owned()
}

/// Bytes as text: what they encode if they are UTF-8, else with replacement characters
/// for what is not.
pub open spec fn as_text(bytes: Seq<u8>) -> Seq<char> {
    if vstd::utf8::valid_utf8(bytes) {
        vstd::utf8::decode_utf8(bytes)
    } else {
        lossy_utf8(bytes)
    }
}

/// Bytes as text.
pub fn body_text(bytes: &[u8]) -> (r: String)
    ensures
        r@ == as_text(bytes@),
{
    read_lossy(bytes)
}

/// What is stored of a body of `len` bytes with this text: the text, or a note of its
/// size if it is longer than `max` bytes.
pub open spec fn stored_body(body: Seq<char>, len: nat, max: nat) -> Seq<char> {
    if len > max {
        "[BODY_TRUNCATED: "@ + numbers::decimal(len) + " bytes]"@
    } else {
        body
    }
}

/// What is stored of a body of `len` bytes with this text.
pub fn body_to_store(body: String, len: usize, max: usize) -> (r: String)
    ensures
        r@ == stored_body(body@, len as nat, max as nat),
{
    if len > max {
        let mut s = "[BODY_TRUNCATED: ".to_owned();
        s.append(decimal_text(len as u64).as_str());
        s.append(" bytes]");
        s
    } else {
        body
    }
}

// ─── Redaction ───────────────────────────────────────────────────────────────

/// Headers whose values are never recorded, whatever the configuration.
pub open spec fn redact_floor() -> Seq<Seq<char>> {
    seq![
        "authorization"@,
        "proxy-authorization"@,
        "cookie"@,
        "set-cookie"@,
        "x-api-key"@,
        "x-auth-token"@,
        "x-session-id"@,
        "x-access-token"@,
        "x-user-token"@,
        "x-csrf-token"@,
        "x-amz-security-token"@,
        "x-amz-session-token"@,
        "x-goog-api-key"@,
        "grpc-metadata-authorization"@,
        "api-key"@,
        "token"@,
    ]
}

fn redact_floor_list() -> (r: Vec<String>)
    ensures
        r.deep_view() == redact_floor(),
{
    let r = vec![
        "authorization".to_owned(),
        "proxy-authorization".to_owned(),
        "cookie".to_owned(),
        "set-cookie".to_owned(),
        "x-api-key".to_owned(),
        "x-auth-token".to_owned(),
        "x-session-id".to_owned(),
        "x-access-token".to_owned(),
        "x-user-token".to_owned(),
        "x-csrf-token".to_owned(),
        "x-amz-security-token".to_owned(),
        "x-amz-session-token".to_owned(),
        "x-goog-api-key".to_owned(),
        "grpc-metadata-authorization".to_owned(),
        "api-key".to_owned(),
        "token".to_owned(),
    ];
    assert(r.deep_view() =~= redact_floor());
    r
}

/// The names `base` and those in `parts`, each trimmed and in lower case, without empty
/// ones and without repetition.
pub open spec fn with_names(base: Seq<Seq<char>>, parts: Seq<Seq<char>>) -> Seq<Seq<char>>
    decreases parts.len(),
{
    if parts.len() == 0 {
        base
    } else {
        let before = with_names(base, parts.drop_last());
        let name = chars::lowercase(chars::trimmed(parts.last()));
        if name.len() == 0 || before.contains(name) {
            before
        } else {
            before.push(name)
        }
    }
}

/// The headers that are redacted for every service: the floor, and the names in a
/// comma-separated setting.
pub open spec fn redacted_for_all(extras: Option<Seq<char>>) -> Seq<Seq<char>> {
    match extras {
        Some(s) => with_names(redact_floor(), text::split(s, ',')),
        None => redact_floor(),
    }
}

/// The headers that are redacted for every service.
pub fn redaction_list(extras: Option<&str>) -> (r: Vec<String>)
    ensures
        r.deep_view() == redacted_for_all(extras.deep_view()),
{
    let mut out = redact_floor_list();
    if let Some(s) = extras {
        let parts = split_text(s, ',');
        let ghost all = parts.deep_view();
        let mut i: usize = 0;
        assert(all.take(0) =~= Seq::empty());
        while i < parts.len()
            invariant
                i <= parts@.len(),
                all == parts.deep_view(),
                out.deep_view() == with_names(redact_floor(), all.take(i as int)),
            decreases parts@.len() - i,
        {
            let ghost before = out.deep_view();
            proof {
                assert(all.take(i + 1).drop_last() =~= all.take(i as int));
                assert(all.take(i + 1).last() == parts@[i as int]@);
            }
            let name = trim(parts[i].as_str()).as_str().to_lowercase();
            if !name.as_str().is_empty() {
                if !in_list(&out, name.as_str()) {
                    let ghost n = name@;
                    out.push(name);
                    assert(out.deep_view() =~= before.push(n));
                }
            }
            i += 1;
        }
        assert(all.take(all.len() as int) =~= all);
    }
    out
}

proof fn lemma_with_names_keeps(base: Seq<Seq<char>>, parts: Seq<Seq<char>>)
    ensures
        base.len() <= with_names(base, parts).len(),
        forall|i: int| 0 <= i < base.len() ==> #[trigger] with_names(base, parts)[i] == base[i],
    decreases parts.len(),
{
    if parts.len() > 0 {
        lemma_with_names_keeps(base, parts.drop_last());
        let before = with_names(base, parts.drop_last());
        assert forall|i: int| 0 <= i < base.len() implies #[trigger] with_names(base, parts)[i]
            == base[i] by {
            assert(before[i] == base[i]);
        }
    }
}

/// The header is redacted: its name in lower case is one of the names in lower case.
pub open spec fn is_redacted(
    header: Seq<char>,
    for_all: Seq<Seq<char>>,
    for_service: Seq<Seq<char>>,
) -> bool {
    let names = for_all + for_service;
    exists|i: int|
        0 <= i < names.len() && chars::lowercase(#[trigger] names[i]) == chars::lowercase(header)
}

/// The recorded value of a redacted header.
pub const REDACTED: &'static str = "[REDACTED]";

/// The headers as they are recorded.
pub open spec fn recorded_headers(
    hs: Map<Seq<char>, Seq<char>>,
    for_all: Seq<Seq<char>>,
    for_service: Seq<Seq<char>>,
) -> Map<Seq<char>, Seq<char>> {
    Map::new(
        |k: Seq<char>| hs.contains_key(k),
        |k: Seq<char>|
            if is_redacted(k, for_all, for_service) {
                REDACTED@
            } else {
                hs[k]
            },
    )
}

fn lower_all(names: &Vec<String>, out: &mut Vec<String>)
    ensures
        final(out).deep_view() == old(out).deep_view() + names.deep_view().map_values(
            |n: Seq<char>| chars::lowercase(n),
        ),
{
    let ghost before = out.deep_view();
    let ghost all = names.deep_view();
    let mut i: usize = 0;
    assert(out.deep_view() =~= before + all.take(0).map_values(
        |n: Seq<char>| chars::lowercase(n),
    ));
    while i < names.len()
        invariant
            i <= names@.len(),
            all == names.deep_view(),
            out.deep_view() == before + all.take(i as int).map_values(
                |n: Seq<char>| chars::lowercase(n),
            ),
        decreases names@.len() - i,
    {
        let ghost prev = out.deep_view();
        let low = names[i].as_str().to_lowercase();
        let ghost l = low@;
        out.push(low);
        assert(out.deep_view() =~= prev.push(l));
        assert(all[i as int] == names@[i as int]@);
        assert(all.take(i + 1).map_values(|n: Seq<char>| chars::lowercase(n)) =~= all.take(
            i as int,
        ).map_values(|n: Seq<char>| chars::lowercase(n)).push(l));
        i += 1;
    }
    assert(all.take(all.len() as int) =~= all);
}

fn in_list(names: &Vec<String>, name: &str) -> (r: bool)
    ensures
        r == names.deep_view().contains(name@),
{
    let ghost all = names.deep_view();
    let mut i: usize = 0;
    while i < names.len()
        invariant
            i <= names@.len(),
            all == names.deep_view(),
            forall|j: int| 0 <= j < i ==> #[trigger] all[j] != name@,
        decreases names@.len() - i,
    {
        assert(all[i as int] == names@[i as int]@);
        if same_text(names[i].as_str(), name) {
            return true;
        }
        i += 1;
    }
    false
}

/// The headers as they are recorded.
pub fn redact(hs: &OrdMap<String, String>, for_all: &Vec<String>, for_service: &Vec<String>) -> (r:
    OrdMap<String, String>)
    ensures
        r.deep_view() == recorded_headers(
            hs.deep_view(),
            for_all.deep_view(),
            for_service.deep_view(),
        ),
{
    let ghost names = for_all.deep_view() + for_service.deep_view();
    let mut low: Vec<String> = Vec::new();
    assert(low.deep_view() =~= Seq::empty());
    lower_all(for_all, &mut low);
    lower_all(for_service, &mut low);
    assert(low.deep_view() =~= names.map_values(|n: Seq<char>| chars::lowercase(n)));
    let mut out: OrdMap<String, String> = OrdMap::new();
    let n = hs.len();
    let ghost ps = ordmap::deep_pairs(hs.pairs());
    proof {
        ordmap::lemma_deep_pairs::<String, String>(hs.pairs());
        ordmap::lemma_pairs_map::<String, Seq<char>>(ps.take(0));
        assert(out.deep_view() =~= recorded_headers(
            ordmap::pairs_map(ps.take(0)),
            for_all.deep_view(),
            for_service.deep_view(),
        ));
    }
    let mut i: usize = 0;
    while i < n
        invariant
            i <= n,
            n == hs.pairs().len(),
            ps == ordmap::deep_pairs(hs.pairs()),
            ordmap::ascending::<String, Seq<char>>(ps),
            names == for_all.deep_view() + for_service.deep_view(),
            low.deep_view() == names.map_values(|n: Seq<char>| chars::lowercase(n)),
            out.deep_view() == recorded_headers(
                ordmap::pairs_map(ps.take(i as int)),
                for_all.deep_view(),
                for_service.deep_view(),
            ),
        decreases n - i,
    {
        let k = hs.key_at(i);
        let v = hs.value_at(i);
        assert(ps[i as int] == (k@, v@));
        let ghost before = out.deep_view();
        let folded = k.as_str().to_lowercase();
        let hidden = in_list(&low, folded.as_str());
        proof {
            let t = ps.take(i + 1);
            assert(t.drop_last() =~= ps.take(i as int));
            ordmap::lemma_drop_last::<String, Seq<char>>(t);
            ordmap::lemma_pairs_map::<String, Seq<char>>(t);
            assert(t[i as int] == (k@, v@));
            assert(ordmap::pairs_map(t) =~= ordmap::pairs_map(ps.take(i as int)).insert(k@, v@));
            if hidden {
                let j = low.deep_view().index_of(folded@);
                assert(low.deep_view()[j] == chars::lowercase(names[j]));
                assert(is_redacted(k@, for_all.deep_view(), for_service.deep_view()));
            } else if is_redacted(k@, for_all.deep_view(), for_service.deep_view()) {
                let j = choose|j: int|
                    0 <= j < names.len() && chars::lowercase(#[trigger] names[j])
                        == chars::lowercase(k@);
                assert(low.deep_view()[j] == folded@);
            }
        }
        let value = if hidden {
            REDACTED.to_owned()
        } else {
            v.clone()
        };
        let ghost stored = value@;
        out.insert(k.clone(), value);
        assert(out.deep_view() =~= before.insert(k@, stored));
        assert(out.deep_view() =~= recorded_headers(
            ordmap::pairs_map(ps.take(i + 1)),
            for_all.deep_view(),
            for_service.deep_view(),
        ));
        i += 1;
    }
    assert(ps.take(n as int) =~= ps);
    out
}

/// Every name of the floor is its own lower case.
proof fn lemma_floor_is_lower(i: int)
    requires
        0 <= i < redact_floor().len(),
    ensures
        chars::lowercase(redact_floor()[i]) == redact_floor()[i],
{
    reveal_strlit("authorization");
    reveal_strlit("proxy-authorization");
    reveal_strlit("cookie");
    reveal_strlit("set-cookie");
    reveal_strlit("x-api-key");
    reveal_strlit("x-auth-token");
    reveal_strlit("x-session-id");
    reveal_strlit("x-access-token");
    reveal_strlit("x-user-token");
    reveal_strlit("x-csrf-token");
    reveal_strlit("x-amz-security-token");
    reveal_strlit("x-amz-session-token");
    reveal_strlit("x-goog-api-key");
    reveal_strlit("grpc-metadata-authorization");
    reveal_strlit("api-key");
    reveal_strlit("token");
    let s = redact_floor()[i];
    assert(forall|j: int|
        0 <= j < s.len() ==> chars::is_ascii(#[trigger] s[j]) && !('A' <= s[j] <= 'Z'));
    assert(vstd::utf8::is_ascii_chars(s));
    assert(chars::ascii_lower(s) =~= s);
}

/// The values of the headers of the floor are never recorded, however their names are
/// written and whatever the settings add.
pub proof fn law_floor_is_always_redacted(
    hs: Map<Seq<char>, Seq<char>>,
    extras: Option<Seq<char>>,
    for_service: Seq<Seq<char>>,
    header: Seq<char>,
    i: int,
)
    requires
        0 <= i < redact_floor().len(),
        chars::lowercase(header) == redact_floor()[i],
        hs.contains_key(header),
    ensures
        recorded_headers(hs, redacted_for_all(extras), for_service)[header] == REDACTED@,
{
    lemma_floor_is_lower(i);
    if let Some(s) = extras {
        lemma_with_names_keeps(redact_floor(), text::split(s, ','));
    }
    let names = redacted_for_all(extras) + for_service;
    assert(redacted_for_all(extras)[i] == redact_floor()[i]);
    assert(names[i] == redact_floor()[i]);
    assert(is_redacted(header, redacted_for_all(extras), for_service));
}

/// Redaction drops no header and adds none.
pub proof fn law_redaction_keeps_names(
    hs: Map<Seq<char>, Seq<char>>,
    for_all: Seq<Seq<char>>,
    for_service: Seq<Seq<char>>,
)
    ensures
        recorded_headers(hs, for_all, for_service).dom() == hs.dom(),
{
    assert(recorded_headers(hs, for_all, for_service).dom() =~= hs.dom());
}

/// A header that carries a secret.
pub open spec fn secret_name(name: Seq<char>) -> bool {
    ||| name == "authorization"@
    ||| name == "proxy-authorization"@
    ||| name == "cookie"@
    ||| name == "set-cookie"@
    ||| name == "x-api-key"@
    ||| name == "x-auth-token"@
    ||| name == "x-session-id"@
    ||| name == "x-access-token"@
    ||| name == "x-user-token"@
    ||| name == "x-csrf-token"@
    ||| name == "x-amz-security-token"@
    ||| name == "x-amz-session-token"@
    ||| name == "x-goog-api-key"@
    ||| name == "grpc-metadata-authorization"@
    ||| name == "api-key"@
    ||| name == "token"@
}

/// A secret is never recorded: whatever the settings, a header whose name in lower case
/// carries one is recorded as `[REDACTED]`.
pub proof fn law_secrets_are_never_recorded(
    hs: Map<Seq<char>, Seq<char>>,
    extras: Option<Seq<char>>,
    for_service: Seq<Seq<char>>,
    header: Seq<char>,
)
    requires
        hs.contains_key(header),
        secret_name(chars::lowercase(header)),
    ensures
        recorded_headers(hs, redacted_for_all(extras), for_service).contains_key(header),
        recorded_headers(hs, redacted_for_all(extras), for_service)[header] == "[REDACTED]"@,
{
    let f = redact_floor();
    let name = chars::lowercase(header);
    assert(f[0] == "authorization"@ && f[1] == "proxy-authorization"@ && f[2] == "cookie"@ && f[3]
        == "set-cookie"@ && f[4] == "x-api-key"@ && f[5] == "x-auth-token"@ && f[6]
        == "x-session-id"@ && f[7] == "x-access-token"@ && f[8] == "x-user-token"@ && f[9]
        == "x-csrf-token"@ && f[10] == "x-amz-security-token"@ && f[11] == "x-amz-session-token"@
        && f[12] == "x-goog-api-key"@ && f[13] == "grpc-metadata-authorization"@ && f[14]
        == "api-key"@ && f[15] == "token"@);
    let i = choose|i: int| 0 <= i < f.len() && #[trigger] f[i] == name;
    law_floor_is_always_redacted(hs, extras, for_service, header, i);
}

/// A header is redacted if its service or the setting for all names it, in whatever
/// case; a header that none of them names keeps its value.
pub proof fn law_named_headers_are_redacted(
    hs: Map<Seq<char>, Seq<char>>,
    for_all: Seq<Seq<char>>,
    for_service: Seq<Seq<char>>,
    header: Seq<char>,
)
    requires
        hs.contains_key(header),
    ensures
        (exists|i: int|
            0 <= i < for_service.len() && chars::lowercase(#[trigger] for_service[i])
                == chars::lowercase(header)) ==> recorded_headers(hs, for_all, for_service)[header]
            == "[REDACTED]"@,
        (exists|i: int|
            0 <= i < for_all.len() && chars::lowercase(#[trigger] for_all[i]) == chars::lowercase(
                header,
            )) ==> recorded_headers(hs, for_all, for_service)[header] == "[REDACTED]"@,
        (forall|i: int|
            0 <= i < for_all.len() ==> chars::lowercase(#[trigger] for_all[i]) != chars::lowercase(
                header,
            )) && (forall|i: int|
            0 <= i < for_service.len() ==> chars::lowercase(#[trigger] for_service[i])
                != chars::lowercase(header)) ==> recorded_headers(hs, for_all, for_service)[header]
            == hs[header],
{
    let names = for_all + for_service;
    if exists|i: int|
        0 <= i < for_service.len() && chars::lowercase(#[trigger] for_service[i])
            == chars::lowercase(header) {
        let i = choose|i: int|
            0 <= i < for_service.len() && chars::lowercase(#[trigger] for_service[i])
                == chars::lowercase(header);
        assert(names[for_all.len() + i] == for_service[i]);
    }
    if exists|i: int|
        0 <= i < for_all.len() && chars::lowercase(#[trigger] for_all[i]) == chars::lowercase(
            header,
        ) {
        let i = choose|i: int|
            0 <= i < for_all.len() && chars::lowercase(#[trigger] for_all[i]) == chars::lowercase(
                header,
            );
        assert(names[i] == for_all[i]);
    }
    if is_redacted(header, for_all, for_service) {
        let i = choose|i: int|
            0 <= i < names.len() && chars::lowercase(#[trigger] names[i]) == chars::lowercase(
                header,
            );
        if i < for_all.len() {
            assert(names[i] == for_all[i]);
        } else {
            assert(names[i] == for_service[i - for_all.len()]);
        }
    }
}

/// The names in the setting are redacted for every service: each part between commas,
/// without white space around it and in lower case, is in the list, and nothing is but
/// these and the floor.
pub proof fn law_setting_names_redacted_headers(setting: Seq<char>, name: Seq<char>)
    ensures
        redacted_for_all(Some(setting)).contains(name) <==> redact_floor().contains(name) || (
        name.len() > 0 && exists|i: int|
            0 <= i < text::split(setting, ',').len() && chars::lowercase(
                chars::trimmed(#[trigger] text::split(setting, ',')[i]),
            ) == name),
        redacted_for_all(None).contains(name) <==> redact_floor().contains(name),
{
    lemma_with_names_has(redact_floor(), text::split(setting, ','), name);
}

proof fn lemma_with_names_has(base: Seq<Seq<char>>, parts: Seq<Seq<char>>, name: Seq<char>)
    ensures
        with_names(base, parts).contains(name) <==> base.contains(name) || (name.len() > 0
            && exists|i: int|
            0 <= i < parts.len() && chars::lowercase(chars::trimmed(#[trigger] parts[i])) == name),
    decreases parts.len(),
{
    if parts.len() > 0 {
        let init = parts.drop_last();
        let before = with_names(base, init);
        let all = with_names(base, parts);
        lemma_with_names_has(base, init, name);
        let last = chars::lowercase(chars::trimmed(parts.last()));
        assert(parts[parts.len() - 1] == parts.last());
        if all.contains(name) && !before.contains(name) {
            let i = all.index_of(name);
            if i < before.len() {
                assert(before[i] == name);
            }
        }
        if before.contains(name) {
            let i = before.index_of(name);
            assert(all[i] == name);
            if !base.contains(name) {
                let k = choose|k: int|
                    0 <= k < init.len() && chars::lowercase(chars::trimmed(#[trigger] init[k]))
                        == name;
                assert(parts[k] == init[k]);
            }
        }
        if name.len() > 0 && exists|i: int|
            0 <= i < parts.len() && chars::lowercase(chars::trimmed(#[trigger] parts[i])) == name {
            let k = choose|k: int|
                0 <= k < parts.len() && chars::lowercase(chars::trimmed(#[trigger] parts[k]))
                    == name;
            if k < init.len() {
                assert(init[k] == parts[k]);
            } else if !before.contains(name) {
                assert(all[all.len() - 1] == name);
            }
        }
    }
}

// ─── Upstream replies ────────────────────────────────────────────────────────

/// The reply of an upstream. A header has a value if it is visible ASCII text.
pub struct UpstreamReply {
    pub status: u16,
    pub headers: Vec<(String, Option<String>)>,
    pub body: Vec<u8>,
    pub latency_ms: u64,
}

/// The headers by name: of equal names the last one counts, and a value that is not
/// text is empty.
pub open spec fn headers_by_name(hs: Seq<(Seq<char>, Option<Seq<char>>)>) -> Map<
    Seq<char>,
    Seq<char>,
>
    decreases hs.len(),
{
    if hs.len() == 0 {
        Map::empty()
    } else {
        let value = match hs.last().1 {
            Some(v) => v,
            None => Seq::empty(),
        };
        headers_by_name(hs.drop_last()).insert(hs.last().0, value)
    }
}

/// The headers by name.
pub fn collect_headers(hs: &Vec<(String, Option<String>)>) -> (r: OrdMap<String, String>)
    ensures
        r.deep_view() == headers_by_name(hs.deep_view()),
{
    let ghost all = hs.deep_view();
    let mut out: OrdMap<String, String> = OrdMap::new();
    let mut i: usize = 0;
    assert(all.take(0) =~= Seq::empty());
    assert(out.deep_view() =~= Map::empty());
    while i < hs.len()
        invariant
            i <= hs@.len(),
            all == hs.deep_view(),
            out.deep_view() == headers_by_name(all.take(i as int)),
        decreases hs@.len() - i,
    {
        let ghost before = out.deep_view();
        proof {
            assert(all.take(i + 1).drop_last() =~= all.take(i as int));
            assert(all.take(i + 1).last() == hs@[i as int].deep_view());
        }
        let value = match &hs[i].1 {
            Some(v) => v.clone(),
            None => String::new(),
        };
        let ghost v = value@;
        out.insert(hs[i].0.clone(), value);
        assert(out.deep_view() =~= before.insert(all[i as int].0, v));
        i += 1;
    }
    assert(all.take(all.len() as int) =~= all);
    out
}

// ─── Entries ─────────────────────────────────────────────────────────────────

/// The entry that an exchange is recorded as. The response headers `hs` are by name.
pub open spec fn recorded_entry(
    req: RoutedRequestView,
    request_len: nat,
    status: u16,
    hs: Map<Seq<char>, Seq<char>>,
    body: Seq<u8>,
    latency_ms: u64,
    for_all: Seq<Seq<char>>,
    max_body: nat,
    now: Timestamp,
) -> MockEntryView {
    MockEntryView {
        id: numbers::signed_decimal(timestamps::millis_of(now)),
        timestamp: timestamps::rfc3339_text(now.secs, now.nanos),
        request: MockRequestView {
            method: req.method,
            uri: req.uri,
            body: stored_body(req.body, request_len, max_body),
        },
        response: MockResponseView {
            status,
            headers: recorded_headers(hs, for_all, req.redact_headers),
            body: stored_body(as_text(body), body.len(), max_body),
            latency_ms,
        },
        service_id: req.service_id,
        tenant: req.tenant,
    }
}

/// The entry that an exchange is recorded as.
pub fn record_exchange(
    req: &RoutedRequest,
    request_len: usize,
    reply: &UpstreamReply,
    hs: &OrdMap<String, String>,
    for_all: &Vec<String>,
    max_body: usize,
    now: Timestamp,
) -> (r: MockEntry)
    requires
        timestamps::in_calendar(now),
    ensures
        r.deep_view() == recorded_entry(
            req.deep_view(),
            request_len as nat,
            reply.status,
            hs.deep_view(),
            reply.body@,
            reply.latency_ms,
            for_all.deep_view(),
            max_body as nat,
            now,
        ),
{
    MockEntry {
        id: signed_decimal_text(now.to_millis()),
        timestamp: now.to_rfc3339(),
        request: MockRequest {
            method: req.method.clone(),
            uri: req.uri.clone(),
            body: body_to_store(req.body.clone(), request_len, max_body),
        },
        response: MockResponse {
            status: reply.status,
            headers: redact(hs, for_all, &req.redact_headers),
            body: body_to_store(
                body_text(reply.body.as_slice()),
                reply.body.len(),
                max_body,
            ),
            latency_ms: reply.latency_ms,
        },
        service_id: req.service_id.dup(),
        tenant: req.tenant.clone(),
    }
}

/// The headers of a reply are kept by name: each name that it has, with its last value,
/// and an empty value if that is not text; no others.
pub proof fn law_reply_headers_are_kept(hs: Seq<(Seq<char>, Option<Seq<char>>)>, i: int)
    requires
        0 <= i < hs.len(),
        forall|j: int| i < j < hs.len() ==> (#[trigger] hs[j]).0 != hs[i].0,
    ensures
        headers_by_name(hs).contains_key(hs[i].0),
        hs[i].1 is Some ==> headers_by_name(hs)[hs[i].0] == hs[i].1->0,
        hs[i].1 is None ==> headers_by_name(hs)[hs[i].0].len() == 0,
        forall|k: Seq<char>| #[trigger]
            headers_by_name(hs).contains_key(k) ==> exists|j: int|
                0 <= j < hs.len() && (#[trigger] hs[j]).0 == k,
    decreases hs.len(),
{
    lemma_headers_have_names(hs);
    if i < hs.len() - 1 {
        let init = hs.drop_last();
        assert forall|j: int| i < j < init.len() implies (#[trigger] init[j]).0 != init[i].0 by {
            assert(init[j] == hs[j]);
        }
        law_reply_headers_are_kept(init, i);
        assert(hs[hs.len() - 1].0 != hs[i].0);
    }
}

proof fn lemma_headers_have_names(hs: Seq<(Seq<char>, Option<Seq<char>>)>)
    ensures
        forall|k: Seq<char>| #[trigger]
            headers_by_name(hs).contains_key(k) ==> exists|j: int|
                0 <= j < hs.len() && (#[trigger] hs[j]).0 == k,
    decreases hs.len(),
{
    if hs.len() > 0 {
        let init = hs.drop_last();
        lemma_headers_have_names(init);
        assert forall|k: Seq<char>| #[trigger] headers_by_name(hs).contains_key(k) implies exists|
            j: int,
        | 0 <= j < hs.len() && (#[trigger] hs[j]).0 == k by {
            if hs.last().0 == k {
                assert(hs[hs.len() - 1].0 == k);
            } else {
                assert(headers_by_name(init).contains_key(k));
                let j = choose|j: int| 0 <= j < init.len() && (#[trigger] init[j]).0 == k;
                assert(hs[j].0 == k);
            }
        }
    }
}

/// An exchange is recorded as it was: with the method, the URI, the tenant and the
/// service of the request, with the status and the latency of the reply, with the headers
/// of the reply but for those that are redacted, and with both bodies. A body that is
/// longer than the limit is replaced by a note of its size in bytes.
pub proof fn law_exchange_is_recorded_as_it_was(
    req: RoutedRequestView,
    request_len: nat,
    status: u16,
    hs: Map<Seq<char>, Seq<char>>,
    body: Seq<u8>,
    latency_ms: u64,
    for_all: Seq<Seq<char>>,
    max_body: nat,
    now: Timestamp,
)
    ensures
        ({
            let e = recorded_entry(
                req,
                request_len,
                status,
                hs,
                body,
                latency_ms,
                for_all,
                max_body,
                now,
            );
            &&& e.id == numbers::signed_decimal(timestamps::millis_of(now))
            &&& e.timestamp == timestamps::rfc3339_text(now.secs, now.nanos)
            &&& e.request.method == req.method
            &&& e.request.uri == req.uri
            &&& e.tenant == req.tenant
            &&& e.service_id == req.service_id
            &&& e.response.status == status
            &&& e.response.latency_ms == latency_ms
            &&& e.response.headers.dom() == hs.dom()
            &&& forall|k: Seq<char>| #[trigger]
                hs.contains_key(k) && !is_redacted(k, for_all, req.redact_headers)
                    ==> e.response.headers[k] == hs[k]
            &&& forall|k: Seq<char>| #[trigger]
                hs.contains_key(k) && is_redacted(k, for_all, req.redact_headers)
                    ==> e.response.headers[k] == "[REDACTED]"@
            &&& request_len <= max_body ==> e.request.body == req.body
            &&& request_len > max_body ==> e.request.body == "[BODY_TRUNCATED: "@
                + numbers::decimal(request_len) + " bytes]"@
            &&& body.len() <= max_body && vstd::utf8::valid_utf8(body) ==> e.response.body
                == vstd::utf8::decode_utf8(body) && vstd::utf8::encode_utf8(e.response.body)
                == body
            &&& body.len() > max_body ==> e.response.body == "[BODY_TRUNCATED: "@
                + numbers::decimal(body.len()) + " bytes]"@
        }),
{
    law_redaction_keeps_names(hs, for_all, req.redact_headers);
    if vstd::utf8::valid_utf8(body) {
        vstd::utf8::decode_utf8_encode_utf8(body);
    }
}

/// The id of an entry in a traffic log, the `n`th of the process.
pub open spec fn traffic_id(now: Timestamp, n: u64) -> Seq<char> {
    numbers::signed_decimal(timestamps::millis_of(now)) + "_"@ + numbers::decimal(n as nat)
}

/// The entry as it stands in the traffic log of its service.
pub open spec fn logged_entry(e: MockEntryView, now: Timestamp, n: u64) -> MockEntryView {
    MockEntryView {
        id: traffic_id(now, n),
        timestamp: e.timestamp,
        request: e.request,
        response: e.response,
        service_id: e.service_id,
        tenant: e.tenant,
    }
}

/// The traffic log has the recorded exchange: the same request, the same response with
/// its status, headers, body and latency, the same service, tenant and time. Only the id
/// is another: the milliseconds of the log and the number of the entry.
pub proof fn law_traffic_log_has_exchange(e: MockEntryView, now: Timestamp, n: u64)
    ensures
        ({
            let l = logged_entry(e, now, n);
            &&& l.request.method == e.request.method
            &&& l.request.uri == e.request.uri
            &&& l.request.body == e.request.body
            &&& l.response.status == e.response.status
            &&& l.response.headers == e.response.headers
            &&& l.response.body == e.response.body
            &&& l.response.latency_ms == e.response.latency_ms
            &&& l.service_id == e.service_id
            &&& l.tenant == e.tenant
            &&& l.timestamp == e.timestamp
            &&& l.id == numbers::signed_decimal(timestamps::millis_of(now)) + "_"@
                + numbers::decimal(n as nat)
        }),
{
}

/// Entries that were logged under different numbers at one time have different ids.
pub proof fn law_traffic_ids_differ(e: MockEntryView, f: MockEntryView, now: Timestamp, n: u64, m: u64)
    requires
        n != m,
    ensures
        logged_entry(e, now, n).id != logged_entry(f, now, m).id,
{
    let prefix = numbers::signed_decimal(timestamps::millis_of(now)) + "_"@;
    let a = numbers::decimal(n as nat);
    let b = numbers::decimal(m as nat);
    if prefix + a == prefix + b {
        let k = prefix.len() as int;
        assert((prefix + a).skip(k) =~= a);
        assert((prefix + b).skip(k) =~= b);
        numbers::law_decimal_injective(n as nat, m as nat);
    }
}

/// The entry as it stands in the traffic log of its service.
pub fn traffic_entry(entry: &MockEntry, now: Timestamp, n: u64) -> (r: MockEntry)
    requires
        timestamps::in_calendar(now),
    ensures
        r.deep_view() == logged_entry(entry.deep_view(), now, n),
{
    let mut id = signed_decimal_text(now.to_millis());
    id.append("_");
    id.append(decimal_text(n).as_str());
    let copy = entry.dup();
    MockEntry {
        id,
        timestamp: copy.timestamp,
        request: copy.request,
        response: copy.response,
        service_id: copy.service_id,
        tenant: copy.tenant,
    }
}

} // verus!
