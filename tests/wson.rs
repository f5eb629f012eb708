use wson::comments::remove_comments;
use wson::error::{WsonParseError, WsonSerializeError};
use wson::parser::{convert_wson_to_map, parse_wson};
use wson::serializer::serialize_wson;
use wson::{dumps, loads, validate, WsonMap, WsonValue};

fn doc(entries: Vec<(&str, WsonValue)>) -> WsonMap {
    let mut m = WsonMap::new();
    for (k, v) in entries {
        m.insert(k.to_string(), v);
    }
    m
}

#[test]
fn scenario_named_fields_sorted() {
    let m = loads("{ name = \"Alice\", age = 30 }").unwrap();
    assert_eq!(m.len(), 2);
    assert_eq!(m.entries[0].0, "age");
    assert_eq!(m.entries[0].1, WsonValue::Int(30));
    assert_eq!(m.entries[1].0, "name");
    assert_eq!(m.entries[1].1, WsonValue::String("Alice".to_string()));
}

#[test]
fn scenario_version_and_back() {
    let m = loads("{ v = 1.2.3 }").unwrap();
    assert_eq!(m.get("v"), Some(&WsonValue::Version(vec![1, 2, 3])));
    assert_eq!(dumps(&m).unwrap(), "{\n    v = 1.2.3\n}");
}

#[test]
fn scenario_block_comment_across_lines() {
    let m = loads("{ /* c\n omment */ a = 1 }").unwrap();
    assert_eq!(m.len(), 1);
    assert_eq!(m.get("a"), Some(&WsonValue::Int(1)));
}

#[test]
fn scenario_empty_value_is_null() {
    let m = loads("{ a = 1, b = }").unwrap();
    assert_eq!(m.len(), 2);
    assert_eq!(m.get("a"), Some(&WsonValue::Int(1)));
    assert_eq!(m.get("b"), Some(&WsonValue::Null));
}

#[test]
fn scenario_missing_closing_brace() {
    let e = loads("{ a = 1").unwrap_err();
    assert_eq!(e.message, "WSON format must start and end with curly braces.");
    assert_eq!(e.line, Some(1));
    assert_eq!(e.column, Some(1));
}

#[test]
fn cascade_version_before_float() {
    let m = loads("{ a = 1.2, b = 1.5e2, c = 42 }").unwrap();
    assert_eq!(m.get("a"), Some(&WsonValue::Version(vec![1, 2])));
    assert_eq!(m.get("b"), Some(&WsonValue::Float("1.5e2".to_string())));
    let f: f64 = "1.5e2".parse().unwrap();
    assert_eq!(f, 150.0);
    assert_eq!(m.get("c"), Some(&WsonValue::Int(42)));
}

#[test]
fn cascade_keywords_ignore_case() {
    let m = loads("{ a = TRUE, b = False, c = NuLL, d = -7, e = +5 }").unwrap();
    assert_eq!(m.get("a"), Some(&WsonValue::Bool(true)));
    assert_eq!(m.get("b"), Some(&WsonValue::Bool(false)));
    assert_eq!(m.get("c"), Some(&WsonValue::Null));
    assert_eq!(m.get("d"), Some(&WsonValue::Int(-7)));
    assert_eq!(m.get("e"), Some(&WsonValue::Int(5)));
}

#[test]
fn cascade_int_out_of_range_is_float() {
    let m = loads("{ a = 9223372036854775808, b = -9223372036854775808 }").unwrap();
    assert_eq!(
        m.get("a"),
        Some(&WsonValue::Float("9223372036854775808".to_string()))
    );
    assert_eq!(m.get("b"), Some(&WsonValue::Int(i64::MIN)));
}

#[test]
fn cascade_float_forms() {
    let m = loads("{ a = .5, b = 5., c = -inf, d = NaN, e = 1e-3 }").unwrap();
    assert_eq!(m.get("a"), Some(&WsonValue::Float(".5".to_string())));
    assert_eq!(m.get("b"), Some(&WsonValue::Float("5.".to_string())));
    assert_eq!(m.get("c"), Some(&WsonValue::Float("-inf".to_string())));
    assert_eq!(m.get("d"), Some(&WsonValue::Float("NaN".to_string())));
    assert_eq!(m.get("e"), Some(&WsonValue::Float("1e-3".to_string())));
}

#[test]
fn cascade_version_component_too_large_is_not_a_version() {
    let e = loads("{ v = 1.4294967296.3 }").unwrap_err();
    assert_eq!(e.message, "Invalid value: 1.4294967296.3");
    let m = loads("{ v = 4294967296.1, w = 4294967295.0 }").unwrap();
    assert_eq!(m.get("v"), Some(&WsonValue::Float("4294967296.1".to_string())));
    assert_eq!(m.get("w"), Some(&WsonValue::Version(vec![4294967295, 0])));
}

#[test]
fn nested_values_and_errors() {
    let m = convert_wson_to_map("{ o = { x: 1, y = [1, 2] }, z = 3 }", 1, 1).unwrap();
    let inner = doc(vec![
        ("x", WsonValue::Int(1)),
        ("y", WsonValue::Array(vec![WsonValue::Int(1), WsonValue::Int(2)])),
    ]);
    assert_eq!(m.get("o"), Some(&WsonValue::Object(inner)));
    assert_eq!(m.get("z"), Some(&WsonValue::Int(3)));
    let a = loads("{ a = [[1, 2], {a = 1, b = 2}, \"x\"] }").unwrap();
    let ab = doc(vec![("a", WsonValue::Int(1)), ("b", WsonValue::Int(2))]);
    assert_eq!(
        a.get("a"),
        Some(&WsonValue::Array(vec![
            WsonValue::Array(vec![WsonValue::Int(1), WsonValue::Int(2)]),
            WsonValue::Object(ab),
            WsonValue::String("x".to_string()),
        ]))
    );
    let e = convert_wson_to_map("{ a = 1, o = { x = ? } }", 1, 1).unwrap_err();
    assert_eq!(e.message, "Invalid value: ?");
    let e = parse_wson("{ a = 1,\n b = ? }").unwrap_err();
    assert_eq!(e.message, "Invalid value: ?");
    assert_eq!(e.line, Some(2));
    assert!(e.column.is_some());
}

#[test]
fn cascade_dates() {
    let m = loads("{ d = 2024-01-15, t = 2024-01-15 10:30:00 }").unwrap();
    assert_eq!(m.get("d"), Some(&WsonValue::Date("2024-01-15".to_string())));
    assert_eq!(
        m.get("t"),
        Some(&WsonValue::DateTime("2024-01-15 10:30:00".to_string()))
    );
}

#[test]
fn invalid_calendar_date_is_an_error() {
    let e = loads("{ d = 2024-13-01 }").unwrap_err();
    assert_eq!(e.message, "Invalid value: 2024-13-01");
    assert!(e.line.is_some());
    assert!(e.column.is_some());
}

#[test]
fn unknown_word_is_an_error() {
    let e = loads("{ a = hello }").unwrap_err();
    assert_eq!(e.message, "Invalid value: hello");
    assert_eq!(e.line, Some(1));
}

#[test]
fn nested_structures() {
    let m = loads("{ o = { x = 1, y = [1, 2] }, l = [true, \"s\", { z = null }] }").unwrap();
    let inner = doc(vec![
        ("x", WsonValue::Int(1)),
        ("y", WsonValue::Array(vec![WsonValue::Int(1), WsonValue::Int(2)])),
    ]);
    assert_eq!(m.get("o"), Some(&WsonValue::Object(inner)));
    let z = doc(vec![("z", WsonValue::Null)]);
    assert_eq!(
        m.get("l"),
        Some(&WsonValue::Array(vec![
            WsonValue::Bool(true),
            WsonValue::String("s".to_string()),
            WsonValue::Object(z),
        ]))
    );
}

#[test]
fn colon_separator_and_trailing_comma() {
    let m = loads("{ a: 1, b: [1, 2,], }").unwrap();
    assert_eq!(m.len(), 2);
    assert_eq!(
        m.get("b"),
        Some(&WsonValue::Array(vec![WsonValue::Int(1), WsonValue::Int(2)]))
    );
}

#[test]
fn repeated_key_keeps_last() {
    let m = loads("{ a = 1, a = 2 }").unwrap();
    assert_eq!(m.len(), 1);
    assert_eq!(m.get("a"), Some(&WsonValue::Int(2)));
}

#[test]
fn empty_document() {
    let m = loads("{}").unwrap();
    assert_eq!(m.len(), 0);
    assert_eq!(dumps(&m).unwrap(), "{\n\n}");
}

#[test]
fn remove_comments_all_kinds() {
    assert_eq!(remove_comments("a // x\nb # y\n\n  \nc /* z */ d"), "a\nb\nc  d\n");
    assert_eq!(remove_comments("a /* open\nstill\nend */ b"), "a\n b\n");
    assert_eq!(remove_comments(""), "");
    assert_eq!(remove_comments("\"http://x\""), "\"http:\n");
}

#[test]
fn comments_do_not_change_result() {
    let plain = loads("{\n a = 1,\n b = [1, 2]\n}").unwrap();
    let commented =
        loads("{ // top\n a = 1, # one\n b /* here */ = [1, 2] // list\n /* end */ }").unwrap();
    assert_eq!(plain, commented);
}

#[test]
fn serialize_layout() {
    let m = doc(vec![
        ("b", WsonValue::Array(vec![WsonValue::Int(1), WsonValue::Bool(false)])),
        ("a", WsonValue::Object(doc(vec![("x", WsonValue::String("s".to_string()))]))),
        ("c", WsonValue::Null),
    ]);
    let text = serialize_wson(&m).unwrap();
    assert_eq!(
        text,
        "{\n    a = {\n        x = \"s\"\n    },\n\n    b = [\n        1,\n        false\n    ],\n\n    c = null\n}"
    );
}

#[test]
fn round_trip_of_a_document() {
    let m = doc(vec![
        ("n", WsonValue::Int(-12)),
        ("s", WsonValue::String("hi there".to_string())),
        ("v", WsonValue::Version(vec![2, 0, 10])),
        ("d", WsonValue::Date("2023-02-28".to_string())),
        ("t", WsonValue::DateTime("2023-02-28 23:59:01".to_string())),
        ("f", WsonValue::Float("2.5e3".to_string())),
        ("l", WsonValue::Array(vec![WsonValue::Null, WsonValue::Bool(true)])),
        ("o", WsonValue::Object(doc(vec![("k", WsonValue::Int(0))]))),
    ]);
    let text = dumps(&m).unwrap();
    assert_eq!(loads(&text).unwrap(), m);
}

#[test]
fn validate_agrees_with_loads() {
    for t in ["{ a = 1 }", "{ a = 1", "{ a = zz }", "", "{}", "{ a = [1, 2 }"] {
        assert_eq!(validate(t), loads(t).is_ok());
    }
    assert!(validate("{ a = 1 }"));
    assert!(!validate("{ a = 1"));
}

#[test]
fn convert_with_start_position() {
    let e = convert_wson_to_map("a = 1", 4, 9).unwrap_err();
    assert_eq!(e.line, Some(4));
    assert_eq!(e.column, Some(9));
    let m = parse_wson("{ k = 1 }").unwrap();
    assert_eq!(m.get("k"), Some(&WsonValue::Int(1)));
}

#[test]
fn error_constructors() {
    let e = WsonParseError::new("bad".to_string(), Some(2), None);
    assert_eq!(e.message, "bad");
    assert_eq!(e.line, Some(2));
    assert_eq!(e.column, None);
    let s = WsonSerializeError::new("io".to_string());
    assert_eq!(s.message, "io");
}

#[test]
fn line_comment_at_line_end_keeps_text() {
    let plain = "{\n  a = 1,\n  b = [1, 2]\n}\n";
    let commented = "{\n  a = 1,// comment\n  b = [1, 2]// comment\n}// comment\n";
    assert_eq!(remove_comments(plain), remove_comments(commented));
    assert_eq!(loads(plain).unwrap(), loads(commented).unwrap());
}

#[test]
fn line_comment_after_hash_changes_text() {
    let plain = "{ a = 1 } # note";
    let commented = "{ a = 1 } # note// comment";
    assert_ne!(remove_comments(plain), remove_comments(commented));
}

#[test]
fn lone_quote_is_an_error() {
    let e = loads("{ a = \" }").unwrap_err();
    assert_eq!(e.message, "Invalid value: \"");
}

#[test]
fn serialize_int_and_version_digits() {
    let m = doc(vec![
        ("i", WsonValue::Int(i64::MIN)),
        ("v", WsonValue::Version(vec![10, 0, 4294967295])),
    ]);
    assert_eq!(
        dumps(&m).unwrap(),
        "{\n    i = -9223372036854775808,\n\n    v = 10.0.4294967295\n}"
    );
}

#[test]
fn scalar_values_read_back() {
    let m = doc(vec![
        ("a", WsonValue::Null),
        ("b", WsonValue::Bool(false)),
        ("c", WsonValue::Int(-40)),
        ("d", WsonValue::String("x = y".to_string())),
    ]);
    assert_eq!(loads(&dumps(&m).unwrap()).unwrap(), m);
}
