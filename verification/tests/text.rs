//! Texts, numbers, maps, URIs, JSON and substitution.
use gostly::chars::eq_ignoring_case;
use gostly::chars::trim;
use gostly::chars::trim_end_slashes;
use gostly::chars::trim_slashes;
use gostly::dup::Dup;
use gostly::json::Json;
use gostly::matcher::replace_at_word_boundary;
use gostly::numbers::decimal_text;
use gostly::numbers::parse_i32;
use gostly::numbers::parse_unsigned;
use gostly::numbers::signed_decimal_text;
use gostly::ordmap::OrdMap;
use gostly::substitute::apply_substitutions_to_json;
use gostly::substitute::collect_value_diffs;
use gostly::substitute::is_id_byte;
use gostly::substitute::substitute_in_text;
use gostly::substitute::trace_changes;
use gostly::text::has_prefix;
use gostly::text::has_suffix;
use gostly::text::has_text;
use gostly::text::join_text;
use gostly::text::lines_of;
use gostly::text::split_once;
use gostly::text::split_text;
use gostly::text::strip_last;
use gostly::text::text_before;
use gostly::uri::normalize_uri;
use gostly::uri::parse_query;
use gostly::uri::split_uri;

#[test]
fn texts_are_split_and_joined() {
    assert_eq!(split_text("a,b,,c", ','), vec!["a", "b", "", "c"]);
    assert_eq!(split_text("", ','), vec![""]);
    assert_eq!(join_text(&split_text("x/y/z", '/'), "/"), "x/y/z");
    assert_eq!(split_once("k=v=w", '='), ("k".to_string(), Some("v=w".to_string())));
    assert_eq!(split_once("k", '='), ("k".to_string(), None));
    assert_eq!(lines_of("a\r\nb\n"), vec!["a", "b"]);
    assert_eq!(lines_of(""), Vec::<String>::new());
    assert_eq!(strip_last("charges", 's').as_deref(), Some("charge"));
    assert_eq!(strip_last("charge", 's'), None);
}

#[test]
fn texts_are_searched() {
    assert!(has_text("hello", "ell"));
    assert!(has_text("hello", ""));
    assert!(!has_text("hello", "elo"));
    assert!(has_prefix("hello", "he") && !has_prefix("hello", "el"));
    assert!(has_suffix("hello", "lo") && !has_suffix("lo", "hello"));
    assert!(text_before("a", "b") && text_before("a", "aa") && !text_before("b", "aa"));
    assert!(eq_ignoring_case("TrUe", "true") && !eq_ignoring_case("tru", "true"));
}

#[test]
fn texts_are_trimmed() {
    assert_eq!(trim(" \t a b\n"), "a b");
    assert_eq!(trim("\u{2003}x\u{a0}"), "x");
    assert_eq!(trim_slashes("//a/b/"), "a/b");
    assert_eq!(trim_end_slashes("/a//"), "/a");
}

#[test]
fn numbers_are_written_and_read() {
    assert_eq!(decimal_text(0), "0");
    assert_eq!(decimal_text(u64::MAX), "18446744073709551615");
    assert_eq!(signed_decimal_text(i64::MIN), "-9223372036854775808");
    assert_eq!(parse_unsigned("18446744073709551615", u64::MAX), Some(u64::MAX));
    assert_eq!(parse_unsigned("18446744073709551616", u64::MAX), None);
    assert_eq!(parse_unsigned("+1", 9), Some(1));
    assert_eq!(parse_unsigned("-1", 9), None);
    assert_eq!(parse_unsigned("", 9), None);
    assert_eq!(parse_unsigned("+", 9), None);
    assert_eq!(parse_i32("-2147483648"), Some(i32::MIN));
    assert_eq!(parse_i32("2147483648"), None);
}

#[test]
fn map_keeps_its_keys_in_order() {
    let mut m: OrdMap<String, u64> = OrdMap::new();
    m.insert("b".to_string(), 2);
    m.insert("a".to_string(), 1);
    m.insert("c".to_string(), 3);
    m.insert("b".to_string(), 22);
    assert_eq!(m.len(), 3);
    assert_eq!(m.key_at(0), "a");
    assert_eq!(*m.value_at(1), 22);
    let copy = m.dup();
    assert_eq!(m.remove(&"a".to_string()), Some(1));
    assert_eq!(m.remove(&"a".to_string()), None);
    assert!(!m.contains_key(&"a".to_string()));
    assert_eq!(copy.get(&"a".to_string()), Some(&1));
}

#[test]
fn uris_are_taken_apart() {
    assert_eq!(split_uri("/a?b?c"), ("/a".to_string(), "b?c".to_string()));
    let q = parse_query("a=1&b&a=2");
    assert_eq!(q.get(&"a".to_string()).map(String::as_str), Some("2"));
    assert_eq!(q.get(&"b".to_string()).map(String::as_str), Some(""));
    assert!(parse_query("").is_empty());
    assert_eq!(normalize_uri("/s?b=1&a=2&b=0"), "/s?a=2&b=1&b=0");
    assert_eq!(normalize_uri("/s?flag"), "/s?flag=");
}

#[test]
fn json_is_read_and_written() {
    let j = Json::parse(r#" {"b":[1,2.5,null,true],"a":"x\ny"} "#).unwrap();
    assert_eq!(j.render().unwrap(), r#"{"a":"x\ny","b":[1,2.5,null,true]}"#);
    assert!(Json::parse("{").is_none());
    assert!(Json::parse("").is_none());
    assert_eq!(Json::from_u64(u64::MAX).render().unwrap(), "18446744073709551615");
    assert_eq!(j.dup().render(), j.render());
    match Json::parse("42").unwrap() {
        Json::Number(n) => assert_eq!(Json::number_string(&n), "42"),
        _ => panic!("no number"),
    }
}

#[test]
fn words_are_replaced_whole() {
    assert_eq!(replace_at_word_boundary("id 12, 120, x12, 12", "12", "7"), "id 7, 120, x12, 7");
    assert_eq!(replace_at_word_boundary("\u{fc}12", "12", "7"), "\u{fc}12");
    assert_eq!(replace_at_word_boundary("\u{fc} 12\u{2026}", "12", "7"), "\u{fc} 7\u{2026}");
    assert_eq!(replace_at_word_boundary("abc", "", "x"), "abc");
    assert!(is_id_byte(b'a') && is_id_byte(b'_') && !is_id_byte(b' '));
}

#[test]
fn changes_are_found_and_traced() {
    let mut diffs = Vec::new();
    collect_value_diffs(
        &Json::parse(r#"{"a":"1","b":{"c":["2",7]},"d":"same"}"#).unwrap(),
        &Json::parse(r#"{"a":"9","b":{"c":["3",8]},"d":"same"}"#).unwrap(),
        &mut diffs,
    );
    assert_eq!(
        diffs,
        vec![("1".to_string(), "9".to_string()), ("2".to_string(), "3".to_string())]
    );
    let traced = trace_changes(&diffs, "only 1 stands here");
    assert_eq!(traced.len(), 1);
    assert_eq!(traced.get(&"1".to_string()).map(String::as_str), Some("9"));
}

#[test]
fn bodies_are_rewritten() {
    let mut subs: OrdMap<String, String> = OrdMap::new();
    subs.insert("1".to_string(), "2".to_string());
    subs.insert("12".to_string(), "99".to_string());
    assert_eq!(apply_substitutions_to_json(r#"{"a":"1","b":"1 1"}"#, &subs), r#"{"a":"2","b":"1 1"}"#);
    assert_eq!(apply_substitutions_to_json("not json: 1 12 123", &subs), "not json: 2 99 123");
    assert_eq!(substitute_in_text("1, 12", &subs), "2, 99");
}
