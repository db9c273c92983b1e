use std::borrow::Cow;

use asmjson::{parse_json, Value};

fn run(json: &'static str) -> Option<Value<'static>> {
    parse_json(json)
}

fn s(v: &'static str) -> Value<'static> {
    Value::String(Cow::Borrowed(v))
}
fn so(v: &str) -> Value<'static> {
    Value::String(Cow::Owned(v.to_string()))
}
fn n(v: &'static str) -> Value<'static> {
    Value::Number(v)
}
fn obj(members: &[(&'static str, Value<'static>)]) -> Value<'static> {
    Value::Object(
        members
            .iter()
            .map(|(k, v)| (Cow::Borrowed(*k), v.clone()))
            .collect::<Vec<_>>(),
    )
}
fn arr(elements: Vec<Value<'static>>) -> Value<'static> {
    Value::Array(elements)
}

#[test]
fn test_string() {
    assert_eq!(run(r#""hello""#), Some(s("hello")));
}

#[test]
fn test_escaped_string() {
    // Escapes are decoded: the Value holds the final unescaped string.
    assert_eq!(run(r#""hello \"world\"""#), Some(so("hello \"world\"")));
    assert_eq!(run(r#""line\\nbreak""#), Some(so("line\\nbreak"))); // \\\\ -> \\ then n literal
    assert_eq!(run(r#""tab\there""#), Some(so("tab\there"))); // \t -> tab
}

#[test]
fn test_number() {
    assert_eq!(run("42"), Some(n("42")));
}

#[test]
fn test_bool_null() {
    assert_eq!(run("true"), Some(Value::Bool(true)));
    assert_eq!(run("false"), Some(Value::Bool(false)));
    assert_eq!(run("null"), Some(Value::Null));
}

#[test]
fn test_empty_object() {
    assert_eq!(run("{}"), Some(Value::Object(vec![])));
}

#[test]
fn test_empty_array() {
    assert_eq!(run("[]"), Some(Value::Array(vec![])));
}

#[test]
fn test_simple_object() {
    assert_eq!(run(r#"{"key": "value"}"#), Some(obj(&[("key", s("value"))])));
}

#[test]
fn test_multi_key_object() {
    assert_eq!(
        run(r#"{ "key1" : "value1" , "key2": [123, 456, 768], "key3" : { "nested_key" : true } }"#),
        Some(obj(&[
            ("key1", s("value1")),
            ("key2", arr(vec![n("123"), n("456"), n("768")])),
            ("key3", obj(&[("nested_key", Value::Bool(true))])),
        ]))
    );
}

#[test]
fn test_array_of_mixed() {
    assert_eq!(
        run(r#"[1, "two", true, null, {"x": 3}]"#),
        Some(arr(vec![
            n("1"),
            s("two"),
            Value::Bool(true),
            Value::Null,
            obj(&[("x", n("3"))]),
        ]))
    );
}

#[test]
fn test_whitespace() {
    assert_eq!(run("  \n  42  \n"), Some(n("42")));
}

#[test]
fn test_valid_numbers() {
    assert_eq!(run("0"), Some(n("0")));
    assert_eq!(run("-0"), Some(n("-0")));
    assert_eq!(run("123"), Some(n("123")));
    assert_eq!(run("-456"), Some(n("-456")));
    assert_eq!(run("1.5"), Some(n("1.5")));
    assert_eq!(run("-1.5"), Some(n("-1.5")));
    assert_eq!(run("1e10"), Some(n("1e10")));
    assert_eq!(run("1E+10"), Some(n("1E+10")));
    assert_eq!(run("1.5e-3"), Some(n("1.5e-3")));
    assert_eq!(run("0.001"), Some(n("0.001")));
}

#[test]
fn test_invalid_numbers() {
    assert_eq!(run("01"), None); // leading zero
    assert_eq!(run("1."), None); // trailing dot
    assert_eq!(run(".5"), None); // leading dot
    assert_eq!(run("1e"), None); // bare exponent
    assert_eq!(run("1e+"), None); // exponent sign only
    assert_eq!(run("--1"), None); // double minus
    assert_eq!(run("1.2.3"), None); // two dots
    assert_eq!(run("abc"), None); // not a keyword
    assert_eq!(run("tru"), None); // truncated keyword
    assert_eq!(run("nul"), None); // truncated keyword
}

#[test]
fn test_structural_errors() {
    // Trailing junk after a valid value.
    assert_eq!(run("42 garbage"), None);
    assert_eq!(run(r#""hi" !"#), None);

    // Multiple top-level values.
    assert_eq!(run("1 2"), None);
    assert_eq!(run("true false"), None);

    // Top-level comma.
    assert_eq!(run("42,"), None);

    // Trailing commas in containers.
    assert_eq!(run("[1, 2,]"), None);
    assert_eq!(run(r#"{"a": 1,}"#), None);

    // Mismatched brackets.
    assert_eq!(run("[1, 2}"), None);
    assert_eq!(run(r#"{"a": 1]"#), None);

    // Unclosed containers.
    assert_eq!(run("[1, 2"), None);
    assert_eq!(run(r#"{"a": 1"#), None);

    // Missing colon.
    assert_eq!(run(r#"{"a" 1}"#), None);

    // Extra closing bracket at top level.
    assert_eq!(run("1}"), None);
    assert_eq!(run("1]"), None);
}
