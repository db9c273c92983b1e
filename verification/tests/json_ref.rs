use asmjson::{parse_json, parse_to_dom, JsonRef, Tape, Value};

fn run_tape(json: &'static str) -> Option<Tape<'static>> {
    parse_to_dom(json)
}

fn run_both(src: &'static str) -> (Value<'static>, Tape<'static>) {
    let v = parse_json(src).unwrap();
    let t = run_tape(src).unwrap();
    (v, t)
}

fn as_f64<'a, J: JsonRef<'a>>(r: J) -> Option<f64> {
    r.as_number_str()?.parse().ok()
}

fn first_item<'a, J: JsonRef<'a>>(val: J) -> Option<i64>
where
    J::Item: JsonRef<'a>,
{
    val.index_at(0)?.as_i64()
}

#[test]
fn jsonref_scalars_tape() {
    let t = run_tape("null").unwrap();
    let r = t.root().unwrap();
    assert!(r.is_null());
    assert!(r.as_null().is_some());

    let t = run_tape("true").unwrap();
    assert_eq!(t.root().unwrap().as_bool(), Some(true));

    let t = run_tape("false").unwrap();
    assert_eq!(t.root().unwrap().as_bool(), Some(false));

    let t = run_tape("42").unwrap();
    let r = t.root().unwrap();
    assert!(r.is_number());
    assert_eq!(r.as_number_str(), Some("42"));
    assert_eq!(r.as_i64(), Some(42));
    assert_eq!(r.as_u64(), Some(42));
    assert_eq!(as_f64(r), Some(42.0));

    let t = run_tape(r#""hello""#).unwrap();
    assert_eq!(t.root().unwrap().as_str(), Some("hello"));
}

#[test]
fn jsonref_object_get() {
    let src = r#"{"x":1,"y":"hi","z":true}"#;
    let t = run_tape(src).unwrap();
    let tr = t.root().unwrap();
    assert!(tr.is_object());
    assert_eq!(tr.get("x").and_then(|r| r.as_i64()), Some(1));
    assert_eq!(tr.get("y").and_then(|r| r.as_str()), Some("hi"));
    assert_eq!(tr.get("z").and_then(|r| r.as_bool()), Some(true));
    assert!(tr.get("missing").is_none());
    assert_eq!(tr.len(), Some(3));
}

#[test]
fn jsonref_array_index() {
    let src = r#"[1,"two",false,null]"#;
    let t = run_tape(src).unwrap();
    let tr = t.root().unwrap();
    assert!(tr.is_array());
    assert_eq!(tr.len(), Some(4));
    assert_eq!(tr.index_at(0).and_then(|r| r.as_i64()), Some(1));
    assert_eq!(tr.index_at(1).and_then(|r| r.as_str()), Some("two"));
    assert_eq!(tr.index_at(2).and_then(|r| r.as_bool()), Some(false));
    assert!(tr.index_at(3).unwrap().is_null());
    assert!(tr.index_at(4).is_none());
}

#[test]
fn jsonref_nested() {
    let src = r#"{"items":[10,20,30],"meta":{"count":3}}"#;
    let t = run_tape(src).unwrap();
    let tr = t.root().unwrap();
    assert_eq!(
        tr.get("items")
            .and_then(|a| a.index_at(1))
            .and_then(|n| n.as_i64()),
        Some(20)
    );
    assert_eq!(
        tr.get("meta")
            .and_then(|o| o.get("count"))
            .and_then(|n| n.as_i64()),
        Some(3)
    );
}

#[test]
fn jsonref_generic_fn() {
    let src = "[7,8,9]";
    let t = run_tape(src).unwrap();
    assert_eq!(first_item(t.root().unwrap()), Some(7));
}

#[test]
fn jsonref_option_chaining() {
    let src = r#"{"a":{"b":{"c":42}},"arr":[10,20,30]}"#;
    let t = run_tape(src).unwrap();
    let tr = t.root().unwrap();
    assert_eq!(tr.get("a").get("b").get("c").as_i64(), Some(42));
    assert!(tr.get("a").get("missing").get("c").as_i64().is_none());
    assert!(tr.get("none").get("b").as_i64().is_none());

    let src2 = r#"{"items":[{"val":1},{"val":2},{"val":3}]}"#;
    let t2 = run_tape(src2).unwrap();
    assert_eq!(
        t2.root()
            .unwrap()
            .get("items")
            .index_at(1)
            .get("val")
            .as_i64(),
        Some(2)
    );
}

#[test]
fn jsonref_scalars_value() {
    let (v, _) = run_both("null");
    assert!((&v).is_null());
    assert!((&v).as_null().is_some());

    let (v, _) = run_both("true");
    assert!((&v).is_bool());
    assert_eq!((&v).as_bool(), Some(true));

    let (v, _) = run_both("false");
    assert_eq!((&v).as_bool(), Some(false));

    let (v, _) = run_both("42");
    assert!((&v).is_number());
    assert_eq!((&v).as_number_str(), Some("42"));
    assert_eq!((&v).as_i64(), Some(42));
    assert_eq!((&v).as_u64(), Some(42));
    assert_eq!(as_f64(&v), Some(42.0));

    let (v, _) = run_both(r#""hello""#);
    assert!((&v).is_string());
    assert_eq!((&v).as_str(), Some("hello"));
}

#[test]
fn json_ref_jsonref_scalars_tape() {
    let (_, t) = run_both("null");
    let r = t.root().unwrap();
    assert!(r.is_null());
    assert!(r.as_null().is_some());

    let (_, t) = run_both("true");
    assert_eq!(t.root().unwrap().as_bool(), Some(true));

    let (_, t) = run_both("false");
    assert_eq!(t.root().unwrap().as_bool(), Some(false));

    let (_, t) = run_both("42");
    let r = t.root().unwrap();
    assert!(r.is_number());
    assert_eq!(r.as_number_str(), Some("42"));
    assert_eq!(r.as_i64(), Some(42));
    assert_eq!(r.as_u64(), Some(42));
    assert_eq!(as_f64(r), Some(42.0));

    let (_, t) = run_both(r#""hello""#);
    assert_eq!(t.root().unwrap().as_str(), Some("hello"));
}

#[test]
fn json_ref_jsonref_object_get() {
    let src = r#"{"x":1,"y":"hi","z":true}"#;
    let (v, t) = run_both(src);

    // &Value
    let vr = &v;
    assert!(vr.is_object());
    assert_eq!(vr.get("x").and_then(|v| v.as_i64()), Some(1));
    assert_eq!(vr.get("y").and_then(|v| v.as_str()), Some("hi"));
    assert_eq!(vr.get("z").and_then(|v| v.as_bool()), Some(true));
    assert!(vr.get("missing").is_none());
    assert_eq!(vr.len(), Some(3));

    // TapeRef
    let tr = t.root().unwrap();
    assert!(tr.is_object());
    assert_eq!(tr.get("x").and_then(|r| r.as_i64()), Some(1));
    assert_eq!(tr.get("y").and_then(|r| r.as_str()), Some("hi"));
    assert_eq!(tr.get("z").and_then(|r| r.as_bool()), Some(true));
    assert!(tr.get("missing").is_none());
    assert_eq!(tr.len(), Some(3));
}

#[test]
fn json_ref_jsonref_array_index() {
    let src = r#"[1,"two",false,null]"#;
    let (v, t) = run_both(src);

    // &Value
    let vr = &v;
    assert!(vr.is_array());
    assert_eq!(vr.len(), Some(4));
    assert_eq!(vr.index_at(0).and_then(|v| v.as_i64()), Some(1));
    assert_eq!(vr.index_at(1).and_then(|v| v.as_str()), Some("two"));
    assert_eq!(vr.index_at(2).and_then(|v| v.as_bool()), Some(false));
    assert!(vr.index_at(3).unwrap().is_null());
    assert!(vr.index_at(4).is_none());

    // TapeRef
    let tr = t.root().unwrap();
    assert!(tr.is_array());
    assert_eq!(tr.len(), Some(4));
    assert_eq!(tr.index_at(0).and_then(|r| r.as_i64()), Some(1));
    assert_eq!(tr.index_at(1).and_then(|r| r.as_str()), Some("two"));
    assert_eq!(tr.index_at(2).and_then(|r| r.as_bool()), Some(false));
    assert!(tr.index_at(3).unwrap().is_null());
    assert!(tr.index_at(4).is_none());
}

#[test]
fn json_ref_jsonref_nested() {
    let src = r#"{"items":[10,20,30],"meta":{"count":3}}"#;
    let (v, t) = run_both(src);

    // &Value path: v["items"][1] == 20
    let vr = &v;
    assert_eq!(
        vr.get("items")
            .and_then(|a| a.index_at(1))
            .and_then(|n| n.as_i64()),
        Some(20)
    );
    assert_eq!(
        vr.get("meta")
            .and_then(|o| o.get("count"))
            .and_then(|n| n.as_i64()),
        Some(3)
    );

    // TapeRef same paths
    let tr = t.root().unwrap();
    assert_eq!(
        tr.get("items")
            .and_then(|a| a.index_at(1))
            .and_then(|n| n.as_i64()),
        Some(20)
    );
    assert_eq!(
        tr.get("meta")
            .and_then(|o| o.get("count"))
            .and_then(|n| n.as_i64()),
        Some(3)
    );
}

#[test]
fn json_ref_jsonref_generic_fn() {
    // A generic function works over both representations.
    let src = "[7,8,9]";
    let (v, t) = run_both(src);
    assert_eq!(first_item(&v), Some(7));
    assert_eq!(first_item(t.root().unwrap()), Some(7));
}

#[test]
fn json_ref_jsonref_option_chaining() {
    // x.get("a").get("b") without intermediate ? or and_then.
    let src = r#"{"a":{"b":{"c":42}},"arr":[10,20,30]}"#;
    let (v, t) = run_both(src);

    // Three-level object chain — &Value
    assert_eq!((&v).get("a").get("b").get("c").as_i64(), Some(42));
    // Missing key at any point short-circuits to None
    assert!((&v).get("a").get("missing").get("c").as_i64().is_none());
    assert!((&v).get("none").get("b").as_i64().is_none());

    // Three-level object chain — TapeRef
    let tr = t.root().unwrap();
    assert_eq!(tr.get("a").get("b").get("c").as_i64(), Some(42));
    assert!(tr.get("a").get("missing").get("c").as_i64().is_none());
    assert!(tr.get("none").get("b").as_i64().is_none());

    // Mix get + index_at chaining
    let src2 = r#"{"items":[{"val":1},{"val":2},{"val":3}]}"#;
    let (v2, t2) = run_both(src2);
    assert_eq!((&v2).get("items").index_at(1).get("val").as_i64(), Some(2));
    assert_eq!(
        t2.root()
            .unwrap()
            .get("items")
            .index_at(1)
            .get("val")
            .as_i64(),
        Some(2)
    );
}

#[test]
fn integers_in_and_out_of_range() {
    let src = concat_numbers();
    let t = parse_to_dom(&src).unwrap();
    let v = parse_json(&src).unwrap();
    let expected: Vec<(Option<i64>, Option<u64>)> = vec![
        (Some(0), Some(0)),
        (Some(0), None),
        (Some(-7), None),
        (Some(i64::MAX), Some(i64::MAX as u64)),
        (None, Some(9223372036854775808)),
        (Some(i64::MIN), None),
        (None, None),
        (None, Some(u64::MAX)),
        (None, None),
        (None, None),
        (None, None),
        (None, None),
    ];
    for (i, (signed, unsigned)) in expected.iter().enumerate() {
        assert_eq!(t.root().index_at(i).as_i64(), *signed, "{i}");
        assert_eq!(t.root().index_at(i).as_u64(), *unsigned, "{i}");
        assert_eq!((&v).index_at(i).as_i64(), *signed, "{i}");
        assert_eq!((&v).index_at(i).as_u64(), *unsigned, "{i}");
    }
    assert_eq!(t.root().len(), Some(expected.len()));
}

fn concat_numbers() -> String {
    let texts = vec![
        "0",
        "-0",
        "-7",
        "9223372036854775807",
        "9223372036854775808",
        "-9223372036854775808",
        "-9223372036854775809",
        "18446744073709551615",
        "18446744073709551616",
        "1.5",
        "1e3",
        "340282366920938463463374607431768211456340282366920938463463374607431768211456",
    ];
    format!("[{}]", texts.join(","))
}

#[test]
fn absent_values_answer_nothing() {
    let t = run_tape(r#"{"a":[]}"#).unwrap();
    let none = t.root().get("b");
    assert!(!none.is_null() && !none.is_bool() && !none.is_number() && !none.is_string());
    assert!(!none.is_array() && !none.is_object());
    assert_eq!(none.as_null(), None);
    assert_eq!(none.as_bool(), None);
    assert_eq!(none.as_number_str(), None);
    assert_eq!(none.as_str(), None);
    assert_eq!(none.as_i64(), None);
    assert_eq!(none.as_u64(), None);
    assert!(none.get("a").is_none());
    assert!(none.index_at(0).is_none());
    assert_eq!(none.len(), None);
    // An element that is there answers the same with and without the wrapper.
    let some = t.root().get("a");
    assert_eq!(some.len(), Some(0));
    assert_eq!(some.unwrap().len(), Some(0));
    assert!(some.is_array());
}

#[test]
fn first_of_equal_keys_wins() {
    let src = r#"{"k":1,"k":2,"\u006b":3}"#;
    let (v, t) = run_both(src);
    assert_eq!(t.root().get("k").as_i64(), Some(1));
    assert_eq!((&v).get("k").as_i64(), Some(1));
    assert_eq!(t.root().len(), Some(3));
}

#[test]
fn wrong_kinds_give_none() {
    let (v, t) = run_both(r#"["x",{"y":1}]"#);
    let tr = t.root().unwrap();
    assert!(tr.get("x").is_none());
    assert!(tr.index_at(1).unwrap().index_at(0).is_none());
    assert_eq!(tr.index_at(0).unwrap().len(), None);
    assert_eq!(tr.index_at(0).unwrap().as_bool(), None);
    assert_eq!(tr.as_str(), None);
    let vr = &v;
    assert!(vr.get("x").is_none());
    assert!(vr.index_at(1).unwrap().index_at(0).is_none());
    assert_eq!(vr.index_at(0).unwrap().len(), None);
    assert_eq!(vr.index_at(0).unwrap().as_bool(), None);
    assert_eq!(vr.as_str(), None);
}
