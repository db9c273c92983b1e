use asmjson::{parse_to_dom, JsonRef, Tape, TapeEntry, TapeRef};

fn run_tape(json: &'static str) -> Option<Tape<'static>> {
    parse_to_dom(json)
}

fn te_str(s: &'static str) -> TapeEntry<'static> {
    TapeEntry::String(s)
}
fn te_key(s: &'static str) -> TapeEntry<'static> {
    TapeEntry::Key(s)
}
fn te_num(s: &'static str) -> TapeEntry<'static> {
    TapeEntry::Number(s)
}

fn pairs_of<'t, 'src>(root: TapeRef<'t, 'src>) -> Vec<(&'t str, TapeRef<'t, 'src>)> {
    let mut iter = root.object_iter().expect("should be object");
    let mut pairs = Vec::new();
    while let Some(pair) = iter.next() {
        pairs.push(pair);
    }
    pairs
}

fn items_of<'t, 'src>(root: TapeRef<'t, 'src>) -> Vec<TapeRef<'t, 'src>> {
    let mut iter = root.array_iter().expect("should be array");
    let mut items = Vec::new();
    while let Some(item) = iter.next() {
        items.push(item);
    }
    items
}

#[test]
fn tape_scalar_values() {
    assert_eq!(run_tape("null").unwrap().entries, vec![TapeEntry::null_entry()]);
    assert_eq!(run_tape("true").unwrap().entries, vec![TapeEntry::Bool(true)]);
    assert_eq!(run_tape("false").unwrap().entries, vec![TapeEntry::Bool(false)]);
    assert_eq!(run_tape("42").unwrap().entries, vec![te_num("42")]);
    assert_eq!(run_tape(r#""hi""#).unwrap().entries, vec![te_str("hi")]);
}

#[test]
fn tape_empty_object() {
    let t = run_tape("{}").unwrap();
    // StartObject(1) EndObject
    assert_eq!(t.entries, vec![TapeEntry::StartObject(1), TapeEntry::end_object_entry()]);
    // StartObject payload points at EndObject
    assert_eq!(t.entries[0], TapeEntry::StartObject(1));
}

#[test]
fn tape_empty_array() {
    let t = run_tape("[]").unwrap();
    assert_eq!(t.entries, vec![TapeEntry::StartArray(1), TapeEntry::end_array_entry()]);
    assert_eq!(t.entries[0], TapeEntry::StartArray(1));
}

#[test]
fn tape_simple_object() {
    // {"a":1} → StartObject Key("a") Number("1") EndObject
    let t = run_tape(r#"{"a":1}"#).unwrap();
    assert_eq!(
        t.entries,
        vec![
            TapeEntry::StartObject(3),
            te_key("a"),
            te_num("1"),
            TapeEntry::end_object_entry(),
        ]
    );
    // StartObject carries index of EndObject
    assert_eq!(t.entries[0], TapeEntry::StartObject(3));
}

#[test]
fn tape_simple_array() {
    // [1,2,3] → StartArray Num Num Num EndArray
    let t = run_tape(r#"[1,2,3]"#).unwrap();
    assert_eq!(
        t.entries,
        vec![
            TapeEntry::StartArray(4),
            te_num("1"),
            te_num("2"),
            te_num("3"),
            TapeEntry::end_array_entry(),
        ]
    );
}

#[test]
fn tape_nested() {
    // {"a":[1,2]} → StartObject Key StartArray Num Num EndArray EndObject
    let t = run_tape(r#"{"a":[1,2]}"#).unwrap();
    assert_eq!(
        t.entries,
        vec![
            TapeEntry::StartObject(6),     // 0
            te_key("a"),                   // 1
            TapeEntry::StartArray(5),      // 2
            te_num("1"),                   // 3
            te_num("2"),                   // 4
            TapeEntry::end_array_entry(),  // 5
            TapeEntry::end_object_entry(), // 6
        ]
    );
    assert_eq!(t.entries[0], TapeEntry::StartObject(6));
    assert_eq!(t.entries[2], TapeEntry::StartArray(5));
}

#[test]
fn tape_multi_key_object() {
    let t = run_tape(r#"{"x":1,"y":2}"#).unwrap();
    assert_eq!(
        t.entries,
        vec![
            TapeEntry::StartObject(5), // 0 — points to EndObject at index 5
            te_key("x"),               // 1
            te_num("1"),               // 2
            te_key("y"),               // 3
            te_num("2"),               // 4
            TapeEntry::end_object_entry(), // 5
        ]
    );
    assert_eq!(t.entries[0], TapeEntry::StartObject(5));
}

#[test]
fn tape_invalid_returns_none() {
    assert!(run_tape("[1,2,]").is_none());
    assert!(run_tape(r#"{"a":1,}"#).is_none());
    assert!(run_tape("{bad}").is_none());
}

#[test]
fn tape_skip_object() {
    // Verify the skip-forward idiom works.
    let t = run_tape(r#"[{"x":1},2]"#).unwrap();
    // entries: StartArray StartObject Key Num EndObject Num EndArray
    //          0          1           2   3   4         5   6
    assert_eq!(t.entries.len(), 7);
    // Skip from StartObject(4) to index 5 (after EndObject).
    let end = t.entries[1]
        .as_start_object()
        .expect("expected StartObject at index 1");
    assert_eq!(end, 4);
    // After the object the next item is at end + 1 = 5.
    assert_eq!(t.entries[5], te_num("2"));
}

#[test]
fn tape_object_iter() {
    let t = run_tape(r#"{"x":1,"y":true,"z":"hi"}"#).unwrap();
    let root = t.root().unwrap();
    let pairs: Vec<_> = pairs_of(root)
        .into_iter()
        .map(|(k, v)| (k.to_string(), (v.as_number_str(), v.as_bool(), v.as_str())))
        .collect();
    assert_eq!(pairs.len(), 3);
    assert_eq!(pairs[0].0, "x");
    assert_eq!(pairs[0].1, (Some("1"), None, None));
    assert_eq!(pairs[1].0, "y");
    assert_eq!(pairs[1].1, (None, Some(true), None));
    assert_eq!(pairs[2].0, "z");
    assert_eq!(pairs[2].1, (None, None, Some("hi")));
    // Non-object returns None.
    let at = parse_to_dom("[1]").unwrap();
    assert!(at.root().unwrap().object_iter().is_none());
}

#[test]
fn tape_array_iter() {
    let t = run_tape(r#"[1,"two",false,null]"#).unwrap();
    let root = t.root().unwrap();
    let items: Vec<_> = items_of(root);
    assert_eq!(items.len(), 4);
    assert_eq!(items[0].as_number_str(), Some("1"));
    assert_eq!(items[1].as_str(), Some("two"));
    assert_eq!(items[2].as_bool(), Some(false));
    assert!(items[3].is_null());
    // Nested structures count as single elements.
    let nt = run_tape(r#"[[1,2],{"a":3}]"#).unwrap();
    let nelems: Vec<_> = items_of(nt.root().unwrap());
    assert_eq!(nelems.len(), 2);
    assert!(nelems[0].is_array());
    assert!(nelems[1].is_object());
    // Non-array returns None.
    let ot = parse_to_dom(r#"{"a":1}"#).unwrap();
    assert!(ot.root().unwrap().array_iter().is_none());
}
