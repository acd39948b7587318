use cjson::convert::{canonicalize, convert};
use cjson::error::CanonError;
use cjson::json::Json;
use cjson::order::{key_rank, Rank};
use cjson::raw::{RawNumber, RawValue};
use cjson::value::{Number, Value};

fn raw_number(n: &serde_json::Number) -> RawNumber {
    if let Some(u) = n.as_u64() {
        RawNumber::Unsigned(u)
    } else if let Some(i) = n.as_i64() {
        RawNumber::Signed(i)
    } else {
        RawNumber::Real(n.to_string())
    }
}

fn raw(value: &serde_json::Value) -> RawValue {
    match value {
        serde_json::Value::Null => RawValue::Null,
        serde_json::Value::Bool(b) => RawValue::Bool(*b),
        serde_json::Value::Number(n) => RawValue::Number(raw_number(n)),
        serde_json::Value::String(s) => RawValue::String(s.clone()),
        serde_json::Value::Array(items) => RawValue::Array(items.iter().map(raw).collect()),
        serde_json::Value::Object(entries) => RawValue::Object(
            entries
                .iter()
                .map(|(k, v)| (k.clone(), raw(v)))
                .collect(),
        ),
    }
}

fn parsed(text: &str) -> RawValue {
    let value: serde_json::Value = serde_json::from_str(text).unwrap();
    raw(&value)
}

fn text(s: &str) -> RawValue {
    RawValue::String(String::from(s))
}

fn whole(n: u64) -> RawValue {
    RawValue::Number(RawNumber::Unsigned(n))
}

#[test]
fn extension_is_json() {
    assert_eq!(Json::extension(), "json");
}

#[test]
fn canonicalize_sorts_the_keys() {
    let raw = parsed(r#"{"foo": "bar", "baz": "quux"}"#);
    let out = Json::canonicalize(&raw).unwrap();
    assert_eq!(out, br#"{"baz":"quux","foo":"bar"}"#);
}

#[test]
fn canonicalize_sorts_the_keys_of_entries_given_in_another_order() {
    let raw = RawValue::Object(vec![
        (String::from("foo"), text("bar")),
        (String::from("baz"), text("quux")),
    ]);
    let out = Json::canonicalize(&raw).unwrap();
    assert_eq!(out, br#"{"baz":"quux","foo":"bar"}"#);
}

#[test]
fn canonicalize_a_nested_document() {
    let raw = RawValue::Object(vec![(
        String::from("o"),
        RawValue::Object(vec![
            (
                String::from("a"),
                RawValue::Array(vec![whole(1), whole(2), whole(3)]),
            ),
            (String::from("s"), text("string")),
            (String::from("n"), whole(123)),
            (String::from("t"), RawValue::Bool(true)),
            (String::from("f"), RawValue::Bool(false)),
            (String::from("0"), RawValue::Null),
        ]),
    )]);
    let out = Json::canonicalize(&raw).unwrap();
    assert_eq!(
        &String::from_utf8(out).unwrap(),
        r#"{"o":{"0":null,"a":[1,2,3],"f":false,"n":123,"s":"string","t":true}}"#
    );
}

#[test]
fn canonicalize_a_parsed_nested_document() {
    let raw = parsed(
        r#"{"o": {"a": [1, 2, 3], "s": "string", "n": 123, "t": true, "f": false, "0": null}}"#,
    );
    let out = canonicalize(&raw).unwrap();
    assert_eq!(
        &String::from_utf8(out).unwrap(),
        r#"{"o":{"0":null,"a":[1,2,3],"f":false,"n":123,"s":"string","t":true}}"#
    );
}

#[test]
fn canonicalize_refuses_a_fraction() {
    let raw = parsed("1.5");
    assert_eq!(
        Json::canonicalize(&raw),
        Err(CanonError::UnsupportedNumber(String::from("1.5")))
    );
    let inside = parsed(r#"{"a": [1, {"b": 1.5}]}"#);
    assert_eq!(
        canonicalize(&inside),
        Err(CanonError::UnsupportedNumber(String::from("1.5")))
    );
}

#[test]
fn canonicalize_refuses_numbers_beyond_64_bits() {
    let raw = parsed("18446744073709551616");
    assert!(matches!(
        canonicalize(&raw),
        Err(CanonError::UnsupportedNumber(_))
    ));
    let raw = parsed("-9223372036854775809");
    assert!(matches!(
        canonicalize(&raw),
        Err(CanonError::UnsupportedNumber(_))
    ));
    let raw = parsed("1e3");
    assert!(matches!(
        canonicalize(&raw),
        Err(CanonError::UnsupportedNumber(_))
    ));
}

#[test]
fn canonicalize_names_the_first_number_that_it_refuses() {
    let raw = RawValue::Array(vec![
        whole(1),
        RawValue::Object(vec![
            (
                String::from("z"),
                RawValue::Number(RawNumber::Real(String::from("2.5"))),
            ),
            (
                String::from("a"),
                RawValue::Number(RawNumber::Real(String::from("3.5"))),
            ),
        ]),
        RawValue::Number(RawNumber::Real(String::from("4.5"))),
    ]);
    assert_eq!(
        canonicalize(&raw),
        Err(CanonError::UnsupportedNumber(String::from("2.5")))
    );
    assert_eq!(
        convert(&raw),
        Err(CanonError::UnsupportedNumber(String::from("2.5")))
    );
}

#[test]
fn canonicalize_empty_containers() {
    assert_eq!(canonicalize(&parsed("{}")).unwrap(), b"{}");
    assert_eq!(canonicalize(&parsed("[]")).unwrap(), b"[]");
    assert_eq!(canonicalize(&RawValue::Object(vec![])).unwrap(), b"{}");
    assert_eq!(canonicalize(&RawValue::Array(vec![])).unwrap(), b"[]");
}

#[test]
fn canonicalize_scalars() {
    assert_eq!(canonicalize(&RawValue::Null).unwrap(), b"null");
    assert_eq!(canonicalize(&RawValue::Bool(true)).unwrap(), b"true");
    assert_eq!(canonicalize(&RawValue::Bool(false)).unwrap(), b"false");
    assert_eq!(canonicalize(&text("")).unwrap(), b"\"\"");
    assert_eq!(canonicalize(&whole(0)).unwrap(), b"0");
    assert_eq!(
        canonicalize(&RawValue::Number(RawNumber::Signed(-42))).unwrap(),
        b"-42"
    );
    assert_eq!(
        canonicalize(&whole(u64::MAX)).unwrap(),
        b"18446744073709551615"
    );
    assert_eq!(
        canonicalize(&RawValue::Number(RawNumber::Signed(i64::MIN))).unwrap(),
        b"-9223372036854775808"
    );
}

#[test]
fn canonicalize_escapes_a_newline() {
    let out = canonicalize(&text("new\nline")).unwrap();
    assert_eq!(out, b"\"new\\nline\"");
    assert!(!out.contains(&b'\n'));
}

#[test]
fn canonicalize_does_not_depend_on_the_order_of_entries() {
    let one = RawValue::Object(vec![
        (String::from("b"), whole(2)),
        (String::from("a"), whole(1)),
        (String::from("c"), RawValue::Array(vec![whole(3), whole(4)])),
    ]);
    let other = RawValue::Object(vec![
        (String::from("c"), RawValue::Array(vec![whole(3), whole(4)])),
        (String::from("a"), whole(1)),
        (String::from("b"), whole(2)),
    ]);
    let third = RawValue::Object(vec![
        (String::from("a"), whole(1)),
        (String::from("b"), whole(2)),
        (String::from("c"), RawValue::Array(vec![whole(3), whole(4)])),
    ]);
    let bytes = canonicalize(&one).unwrap();
    assert_eq!(bytes, br#"{"a":1,"b":2,"c":[3,4]}"#);
    assert_eq!(canonicalize(&other).unwrap(), bytes);
    assert_eq!(canonicalize(&third).unwrap(), bytes);
    assert_eq!(convert(&one), convert(&other));
}

#[test]
fn canonicalize_does_not_depend_on_the_order_inside_nested_objects() {
    let one = RawValue::Array(vec![RawValue::Object(vec![
        (
            String::from("outer"),
            RawValue::Object(vec![
                (String::from("y"), whole(2)),
                (String::from("x"), RawValue::Number(RawNumber::Signed(1))),
            ]),
        ),
        (String::from("also"), RawValue::Null),
    ])]);
    let other = RawValue::Array(vec![RawValue::Object(vec![
        (String::from("also"), RawValue::Null),
        (
            String::from("outer"),
            RawValue::Object(vec![
                (String::from("x"), whole(1)),
                (String::from("y"), whole(2)),
            ]),
        ),
    ])]);
    let bytes = canonicalize(&one).unwrap();
    assert_eq!(bytes, br#"[{"also":null,"outer":{"x":1,"y":2}}]"#);
    assert_eq!(canonicalize(&other).unwrap(), bytes);
}

#[test]
fn canonicalize_tells_documents_apart() {
    let documents = [
        parsed("1"),
        parsed("\"1\""),
        parsed("[1,2]"),
        parsed("[12]"),
        parsed("[[1],2]"),
        parsed("[1,[2]]"),
        parsed("[\"1,2\"]"),
        parsed("-1"),
        parsed("\"-1\""),
        parsed("null"),
        parsed("\"null\""),
        parsed("{\"a\":{\"b\":1}}"),
        parsed("{\"a\":{},\"b\":1}"),
        parsed("{\"a\\\"\":1}"),
        parsed("{\"a\":\"\\\"\"}"),
        parsed("\"\\n\""),
        parsed("\"\\\\n\""),
    ];
    let bytes: Vec<Vec<u8>> = documents
        .iter()
        .map(|d| canonicalize(d).unwrap())
        .collect();
    for i in 0..bytes.len() {
        for j in 0..bytes.len() {
            assert_eq!(i == j, bytes[i] == bytes[j]);
        }
    }
}

#[test]
fn canonicalize_keeps_the_order_of_arrays() {
    let raw = RawValue::Array(vec![whole(3), whole(1), whole(2)]);
    assert_eq!(canonicalize(&raw).unwrap(), b"[3,1,2]");
}

#[test]
fn canonicalize_again_gives_the_same_bytes() {
    let texts = [
        r#"{"foo": "bar", "baz": "quux"}"#,
        r#"{"o": {"a": [1, 2, 3], "s": "string", "n": 123, "t": true, "f": false, "0": null}}"#,
        r#"[{"b": [], "a": {}}, "x\ny", -5, 18446744073709551615, "\u0001\"\\", "é€"]"#,
        "null",
        "[]",
        "{}",
    ];
    for t in texts {
        let first = canonicalize(&parsed(t)).unwrap();
        let again: serde_json::Value = serde_json::from_slice(&first).unwrap();
        assert_eq!(canonicalize(&raw(&again)).unwrap(), first);
    }
}

#[test]
fn canonicalize_agrees_with_the_compact_form_of_sorted_documents() {
    let texts = [
        r#"{"a": 1, "b": [true, false, null], "c": {"d": "e\tf", "g": -7}}"#,
        r#"["\u0000\u001f\u007f", "\"", "\\", "/", "\b\f\n\r\t"]"#,
        r#"{"": 0, "A": 1, "a": 2, "aa": 3, "b": 4, "é": 5}"#,
    ];
    for t in texts {
        let value: serde_json::Value = serde_json::from_str(t).unwrap();
        assert_eq!(
            canonicalize(&raw(&value)).unwrap(),
            serde_json::to_vec(&value).unwrap()
        );
    }
}

#[test]
fn convert_holds_an_integer_as_signed_where_it_fits() {
    assert_eq!(convert(&whole(5)), Ok(Value::Number(Number::I64(5))));
    assert_eq!(
        convert(&whole(i64::MAX as u64)),
        Ok(Value::Number(Number::I64(i64::MAX)))
    );
    assert_eq!(
        convert(&whole(i64::MAX as u64 + 1)),
        Ok(Value::Number(Number::U64(9223372036854775808)))
    );
    assert_eq!(
        convert(&whole(u64::MAX)),
        Ok(Value::Number(Number::U64(u64::MAX)))
    );
    assert_eq!(
        convert(&RawValue::Number(RawNumber::Signed(-3))),
        Ok(Value::Number(Number::I64(-3)))
    );
    assert_eq!(
        convert(&RawValue::Number(RawNumber::Signed(3))),
        Ok(Value::Number(Number::I64(3)))
    );
}

#[test]
fn convert_keeps_scalars() {
    assert_eq!(convert(&RawValue::Null), Ok(Value::Null));
    assert_eq!(convert(&RawValue::Bool(true)), Ok(Value::Bool(true)));
    assert_eq!(convert(&text("x")), Ok(Value::String(String::from("x"))));
}

#[test]
fn convert_sorts_keys_by_their_bytes() {
    let raw = RawValue::Object(vec![
        (String::from("\u{e9}"), whole(5)),
        (String::from("b"), whole(4)),
        (String::from("aa"), whole(3)),
        (String::from("a"), whole(2)),
        (String::from("A"), whole(1)),
        (String::from(""), whole(0)),
        (String::from("\u{1f600}"), whole(7)),
        (String::from("\u{ffff}"), whole(6)),
    ]);
    let expected = Value::Object(vec![
        (String::from(""), Value::Number(Number::I64(0))),
        (String::from("A"), Value::Number(Number::I64(1))),
        (String::from("a"), Value::Number(Number::I64(2))),
        (String::from("aa"), Value::Number(Number::I64(3))),
        (String::from("b"), Value::Number(Number::I64(4))),
        (String::from("\u{e9}"), Value::Number(Number::I64(5))),
        (String::from("\u{ffff}"), Value::Number(Number::I64(6))),
        (String::from("\u{1f600}"), Value::Number(Number::I64(7))),
    ]);
    assert_eq!(convert(&raw), Ok(expected));
}

#[test]
fn convert_sorts_as_strings_compare() {
    let keys = [
        "zeta", "alpha", "", "Alpha", "alph", "alpha0", "\u{7f}", "\u{80}", "\u{7ff}", "\u{800}",
        "\u{10000}", "~", "a\u{0}", "a",
    ];
    let raw = RawValue::Object(
        keys.iter()
            .map(|k| (String::from(*k), RawValue::Null))
            .collect(),
    );
    let mut sorted: Vec<String> = keys.iter().map(|k| String::from(*k)).collect();
    sorted.sort();
    let expected = Value::Object(sorted.into_iter().map(|k| (k, Value::Null)).collect());
    assert_eq!(convert(&raw), Ok(expected));
}

#[test]
fn convert_lets_the_later_of_two_equal_keys_stay() {
    let raw = RawValue::Object(vec![
        (String::from("k"), whole(1)),
        (String::from("a"), whole(2)),
        (String::from("k"), whole(3)),
    ]);
    assert_eq!(canonicalize(&raw).unwrap(), br#"{"a":2,"k":3}"#);
}

#[test]
fn convert_sorts_nested_objects_and_keeps_arrays() {
    let raw = parsed(r#"[{"b": {"y": 1, "x": 2}, "a": [{"d": 1, "c": 2}]}]"#);
    assert_eq!(
        canonicalize(&raw).unwrap(),
        br#"[{"a":[{"c":2,"d":1}],"b":{"x":2,"y":1}}]"#
    );
}

#[test]
fn key_rank_orders_keys_by_their_bytes() {
    assert_eq!(key_rank("a", "b"), Rank::Before);
    assert_eq!(key_rank("b", "a"), Rank::After);
    assert_eq!(key_rank("a", "a"), Rank::Same);
    assert_eq!(key_rank("", ""), Rank::Same);
    assert_eq!(key_rank("", "a"), Rank::Before);
    assert_eq!(key_rank("a", ""), Rank::After);
    assert_eq!(key_rank("a", "aa"), Rank::Before);
    assert_eq!(key_rank("ab", "aa"), Rank::After);
    assert_eq!(key_rank("Z", "a"), Rank::Before);
    assert_eq!(key_rank("z", "\u{e9}"), Rank::Before);
    assert_eq!(key_rank("\u{ffff}", "\u{10000}"), Rank::Before);
}

#[test]
fn raw_numbers_read_as_integers() {
    assert_eq!(RawNumber::Unsigned(7).as_i64(), Some(7));
    assert_eq!(RawNumber::Unsigned(7).as_u64(), Some(7));
    assert_eq!(RawNumber::Unsigned(u64::MAX).as_i64(), None);
    assert_eq!(RawNumber::Unsigned(u64::MAX).as_u64(), Some(u64::MAX));
    assert_eq!(
        RawNumber::Unsigned(i64::MAX as u64).as_i64(),
        Some(i64::MAX)
    );
    assert_eq!(RawNumber::Unsigned(i64::MAX as u64 + 1).as_i64(), None);
    assert_eq!(RawNumber::Signed(-7).as_i64(), Some(-7));
    assert_eq!(RawNumber::Signed(-7).as_u64(), None);
    assert_eq!(RawNumber::Signed(7).as_u64(), Some(7));
    assert_eq!(RawNumber::Signed(0).as_u64(), Some(0));
    assert_eq!(RawNumber::Real(String::from("1.5")).as_i64(), None);
    assert_eq!(RawNumber::Real(String::from("1.5")).as_u64(), None);
}

#[test]
fn raw_numbers_give_their_literal() {
    assert_eq!(RawNumber::Unsigned(70).literal(), "70");
    assert_eq!(RawNumber::Signed(-70).literal(), "-70");
    assert_eq!(RawNumber::Real(String::from("1.5")).literal(), "1.5");
}
