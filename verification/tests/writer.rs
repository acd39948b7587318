use cjson::value::{Number, Value};

fn written(value: &Value) -> Vec<u8> {
    let mut out = Vec::new();
    value.write(&mut out).unwrap();
    out
}

#[test]
fn write_str() {
    let jsn = Value::String(String::from("wat"));
    let mut out = Vec::new();
    jsn.write(&mut out).unwrap();
    assert_eq!(&out, b"\"wat\"");
}

#[test]
fn write_arr() {
    let jsn = Value::Array(vec![
        Value::String(String::from("wat")),
        Value::String(String::from("lol")),
        Value::String(String::from("no")),
    ]);
    let mut out = Vec::new();
    jsn.write(&mut out).unwrap();
    assert_eq!(&out, b"[\"wat\",\"lol\",\"no\"]");
}

#[test]
fn write_obj() {
    let arr = Value::Array(vec![
        Value::String(String::from("haha")),
        Value::String(String::from("new\nline")),
    ]);
    let map = vec![(String::from("lol"), arr)];
    let jsn = Value::Object(map);
    let mut out = Vec::new();
    jsn.write(&mut out).unwrap();
    assert_eq!(&out, &b"{\"lol\":[\"haha\",\"new\\nline\"]}");
}

#[test]
fn write_keywords() {
    assert_eq!(written(&Value::Null), b"null");
    assert_eq!(written(&Value::Bool(true)), b"true");
    assert_eq!(written(&Value::Bool(false)), b"false");
}

#[test]
fn write_appends_to_what_is_there() {
    let mut out = b"abc".to_vec();
    Value::Null.write(&mut out).unwrap();
    Value::Bool(true).write(&mut out).unwrap();
    assert_eq!(out, b"abcnulltrue");
}

#[test]
fn write_signed_integers() {
    assert_eq!(written(&Value::Number(Number::I64(0))), b"0");
    assert_eq!(written(&Value::Number(Number::I64(7))), b"7");
    assert_eq!(written(&Value::Number(Number::I64(-1))), b"-1");
    assert_eq!(written(&Value::Number(Number::I64(123))), b"123");
    assert_eq!(written(&Value::Number(Number::I64(-10200))), b"-10200");
    assert_eq!(
        written(&Value::Number(Number::I64(i64::MAX))),
        b"9223372036854775807"
    );
    assert_eq!(
        written(&Value::Number(Number::I64(i64::MIN))),
        b"-9223372036854775808"
    );
}

#[test]
fn write_unsigned_integers() {
    assert_eq!(written(&Value::Number(Number::U64(0))), b"0");
    assert_eq!(written(&Value::Number(Number::U64(10))), b"10");
    assert_eq!(written(&Value::Number(Number::U64(100000))), b"100000");
    assert_eq!(
        written(&Value::Number(Number::U64(9223372036854775808))),
        b"9223372036854775808"
    );
    assert_eq!(
        written(&Value::Number(Number::U64(u64::MAX))),
        b"18446744073709551615"
    );
}

#[test]
fn write_integers_as_the_standard_library_prints_them() {
    let mut n: i64 = 1;
    for _ in 0..19 {
        for candidate in [n - 1, n, n + 1, -n, -n - 1, -n + 1] {
            assert_eq!(
                written(&Value::Number(Number::I64(candidate))),
                format!("{}", candidate).into_bytes()
            );
        }
        n = n.saturating_mul(10);
    }
    let mut u: u64 = 1;
    for _ in 0..20 {
        for candidate in [u - 1, u, u + 1] {
            assert_eq!(
                written(&Value::Number(Number::U64(candidate))),
                format!("{}", candidate).into_bytes()
            );
        }
        u = u.saturating_mul(10);
    }
}

#[test]
fn write_empty_containers() {
    assert_eq!(written(&Value::Array(vec![])), b"[]");
    assert_eq!(written(&Value::Object(vec![])), b"{}");
    assert_eq!(written(&Value::String(String::new())), b"\"\"");
}

#[test]
fn write_escapes_the_quote_and_the_backslash() {
    assert_eq!(
        written(&Value::String(String::from("say \"hi\""))),
        b"\"say \\\"hi\\\"\""
    );
    assert_eq!(
        written(&Value::String(String::from("a\\b"))),
        b"\"a\\\\b\""
    );
}

#[test]
fn write_escapes_a_newline_and_never_writes_it_raw() {
    let out = written(&Value::String(String::from("new\nline")));
    assert_eq!(out, b"\"new\\nline\"");
    assert!(!out.contains(&b'\n'));
}

#[test]
fn write_short_escapes() {
    assert_eq!(
        written(&Value::String(String::from("\u{8}\t\n\u{c}\r"))),
        b"\"\\b\\t\\n\\f\\r\""
    );
}

#[test]
fn write_other_control_characters_in_hexadecimal() {
    assert_eq!(
        written(&Value::String(String::from("\u{0}"))),
        b"\"\\u0000\""
    );
    assert_eq!(
        written(&Value::String(String::from("\u{1}"))),
        b"\"\\u0001\""
    );
    assert_eq!(
        written(&Value::String(String::from("\u{b}"))),
        b"\"\\u000b\""
    );
    assert_eq!(
        written(&Value::String(String::from("\u{1a}\u{1f}"))),
        b"\"\\u001a\\u001f\""
    );
}

#[test]
fn write_every_control_character_escaped() {
    for code in 0u32..0x20 {
        let c = char::from_u32(code).unwrap();
        let out = written(&Value::String(c.to_string()));
        assert_eq!(out[0], b'"');
        assert_eq!(out[1], b'\\');
        assert_eq!(out[out.len() - 1], b'"');
        assert!(out.iter().all(|b| *b >= 0x20));
    }
}

#[test]
fn write_leaves_other_characters_alone() {
    assert_eq!(
        written(&Value::String(String::from(" /~\u{7f}"))),
        b"\" /~\x7f\""
    );
    assert_eq!(
        written(&Value::String(String::from("h\u{e9}llo"))),
        "\"h\u{e9}llo\"".as_bytes()
    );
    assert_eq!(
        written(&Value::String(String::from("\u{20ac}\u{1f600}"))),
        "\"\u{20ac}\u{1f600}\"".as_bytes()
    );
}

#[test]
fn write_escapes_keys_too() {
    let jsn = Value::Object(vec![(String::from("a\"b\n"), Value::Null)]);
    assert_eq!(written(&jsn), b"{\"a\\\"b\\n\":null}");
}

#[test]
fn write_entries_in_the_order_that_they_have() {
    let jsn = Value::Object(vec![
        (String::from("a"), Value::Number(Number::I64(1))),
        (String::from("b"), Value::Bool(false)),
        (String::from("c"), Value::Array(vec![Value::Null, Value::Null])),
    ]);
    assert_eq!(written(&jsn), b"{\"a\":1,\"b\":false,\"c\":[null,null]}");
}

#[test]
fn write_nested_containers() {
    let jsn = Value::Array(vec![
        Value::Array(vec![]),
        Value::Object(vec![(
            String::from("k"),
            Value::Array(vec![Value::Object(vec![])]),
        )]),
        Value::Array(vec![Value::Array(vec![Value::Number(Number::U64(1))])]),
    ]);
    assert_eq!(written(&jsn), b"[[],{\"k\":[{}]},[[1]]]");
}
