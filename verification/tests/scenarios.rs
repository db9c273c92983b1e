use std::borrow::Cow;

use asmjson::de::{visit_any, visit_enum, visit_map, visit_seq, EnumVisit, Visit};
use asmjson::{parse_json, parse_to_dom, DomEntryKind, DomRef, JsonRef, Tape, Value};

const SOURCES: [&str; 9] = [
    "null",
    " -1.5e3 ",
    "[]",
    "{}",
    "[[],[[]]]",
    r#"{"a":1,"b":[true,false,null]}"#,
    r#"{"k\n":"v\t","":""}"#,
    "[\"\u{e9}\",\"\u{1f600}\"]",
    r#"[1,2,3,4,5,6,7,8,9,10,11,12,13,14,15,16,17,18,19,20,21,22,23,24,25,26,27]"#,
];

#[test]
fn name_and_age() {
    let tape = parse_to_dom(r#"{"name":"Alice","age":30}"#).unwrap();
    assert_eq!(tape.root().get("name").as_str(), Some("Alice"));
    assert_eq!(tape.root().get("age").as_i64(), Some(30));
}

#[test]
fn fields_from_one_pass_over_an_object() {
    let src = r#"{"items":[1,2,3],"meta":{"count":3}}"#;
    let tape = parse_to_dom(src).unwrap();
    let root = tape.root().unwrap();

    let mut items_ref: Option<DomRef> = None;
    let mut meta_ref: Option<DomRef> = None;
    let mut iter = root.object_iter().unwrap();
    while let Some((key, val)) = iter.next() {
        match key {
            "items" => items_ref = Some(val),
            "meta" => meta_ref = Some(val),
            _ => {}
        }
    }

    let count = meta_ref.unwrap().get("count").unwrap().as_i64();
    assert_eq!(count, Some(3));
    assert_eq!(items_ref.unwrap().len(), Some(3));
}

#[test]
fn rows_for_indexed_and_repeated_access() {
    let src = r#"[{"name":"Alice","score":91},{"name":"Bob","score":78},{"name":"Carol","score":85}]"#;
    let tape = parse_to_dom(src).unwrap();
    let root = tape.root().unwrap();

    let mut rows: Vec<DomRef> = Vec::new();
    let mut iter = root.array_iter().unwrap();
    while let Some(row) = iter.next() {
        rows.push(row);
    }

    assert_eq!(rows[1].get("name").unwrap().as_str(), Some("Bob"));
    let total: i64 = rows
        .iter()
        .filter_map(|r| r.get("score").and_then(|s| s.as_i64()))
        .sum();
    assert_eq!(total, 91 + 78 + 85);
}

#[test]
fn tape_is_no_longer_than_its_source() {
    for src in SOURCES {
        let tape = parse_to_dom(src).unwrap();
        assert!(tape.entries.len() <= src.len(), "{src}");
    }
    assert_eq!(parse_to_dom("[]").unwrap().entries.len(), 2);
}

#[test]
fn numbers_in_documents_are_valid_numbers() {
    for src in SOURCES {
        for e in &parse_to_dom(src).unwrap().entries {
            if let Some(s) = e.as_number() {
                assert!(asmjson::is_valid_json_number(s.as_bytes()), "{s}");
            }
        }
    }
    for src in ["[01]", "[1.]", "[.5]", "[+1]", "[1e]", "[- 1]", "[0x10]", "[NaN]"] {
        assert!(parse_to_dom(src).is_none(), "{src}");
        assert!(parse_json(src).is_none(), "{src}");
    }
}

#[test]
fn text_without_backslashes_is_borrowed_unchanged() {
    let src = "[\"caf\u{e9}\"]";
    let tape = parse_to_dom(src).unwrap();
    assert!(!tape.has_escapes);
    let s = tape.root().index_at(0).as_str().unwrap();
    assert_eq!(s, "caf\u{e9}");
    // The text lies within the source.
    let offset = s.as_ptr() as usize - src.as_ptr() as usize;
    assert_eq!(offset, 2);
    let mut out = String::from("old");
    asmjson::unescape_str("caf\u{e9}", &mut out);
    assert_eq!(out, "caf\u{e9}");
}

/// Whether the cursor points at the entry with the index `i` of the tape.
fn points_at(tape: &Tape, c: DomRef, i: usize) -> bool {
    std::ptr::eq(c.entry(), &tape.entries[i])
}

#[test]
fn lookup_stands_at_the_first_member_with_the_key() {
    let tape = parse_to_dom(r#"{"a":{"b":1},"b":2,"b":3}"#).unwrap();
    let root = tape.root().unwrap();
    let found = root.get("b").unwrap();
    assert!(points_at(&tape, found, 7));
    assert_eq!(found.as_number_str(), Some("2"));
    assert!(points_at(&tape, tape.root().get("b").unwrap(), 7));
    assert!(points_at(&tape, root.get("a").unwrap(), 2));
    assert!(points_at(&tape, root.get("a").get("b").unwrap(), 4));
    assert!(root.get("c").is_none());

    // The iterator yields the same cursors.
    let mut iter = root.object_iter().unwrap();
    for (key, place) in [("a", 2), ("b", 7), ("b", 9)] {
        let (k, v) = iter.next().unwrap();
        assert_eq!(k, key);
        assert!(points_at(&tape, v, place));
    }
    assert!(iter.next().is_none());
}

#[test]
fn elements_stand_where_they_start() {
    let tape = parse_to_dom(r#"[[1,2],{"a":3}]"#).unwrap();
    let root = tape.root().unwrap();
    let mut iter = root.array_iter().unwrap();
    for (i, place) in [(0, 1), (1, 5)] {
        assert!(points_at(&tape, iter.next().unwrap(), place));
        assert!(points_at(&tape, root.index_at(i).unwrap(), place));
        assert!(points_at(&tape, tape.root().index_at(i).unwrap(), place));
    }
    assert!(iter.next().is_none());
    assert!(root.index_at(2).is_none());
    assert!(root.index_at(0).unwrap().is_array());
    assert!(root.index_at(1).unwrap().is_object());
}

#[test]
fn equal_texts_keep_their_places() {
    let tape = parse_to_dom(r#"{"x":"\u0061","y":"a"}"#).unwrap();
    let root = tape.root().unwrap();
    assert_eq!(root.get("x").as_str(), root.get("y").as_str());
    assert_eq!(root.get("x").unwrap().entry().kind(), DomEntryKind::EscapedString);
    assert_eq!(root.get("y").unwrap().entry().kind(), DomEntryKind::String);
    assert!(matches!(visit_any(root.get("x").unwrap()), Ok(Visit::Str("a"))));
    assert!(matches!(visit_any(root.get("y").unwrap()), Ok(Visit::BorrowedStr("a"))));
}

#[test]
fn accesses_hand_out_the_cursors_in_place() {
    let tape = parse_to_dom(r#"[{"k":["plain","esc\n"]},7]"#).unwrap();
    let root = tape.root().unwrap();
    let mut seq = visit_seq(root).unwrap();
    let object = seq.next_element().unwrap();
    assert!(points_at(&tape, object, 1));
    let mut map = visit_map(object).unwrap();
    assert_eq!(map.next_key(), Some("k"));
    let array = map.next_value().unwrap();
    assert!(points_at(&tape, array, 3));
    assert!(map.next_key().is_none());
    let mut inner = visit_seq(array).unwrap();
    assert!(matches!(visit_any(inner.next_element().unwrap()), Ok(Visit::BorrowedStr("plain"))));
    assert!(matches!(visit_any(inner.next_element().unwrap()), Ok(Visit::Str("esc\n"))));
    assert!(inner.next_element().is_none());
    assert!(points_at(&tape, seq.next_element().unwrap(), 8));
    match visit_enum(object) {
        Ok(EnumVisit::Variant(name, content)) => {
            assert_eq!(name, "k");
            assert!(points_at(&tape, content, 3));
        }
        _ => panic!("a variant"),
    }
}

#[test]
fn tree_borrows_text_without_escapes() {
    let v = parse_json(r#"{"plain":"text","e\\sc":["a\tb","c"]}"#).unwrap();
    let copy = v.clone();
    for tree in [&v, &copy] {
        let Value::Object(ms) = tree else { panic!("an object") };
        assert!(matches!(ms[0].0, Cow::Borrowed("plain")));
        assert!(matches!(ms[0].1, Value::String(Cow::Borrowed("text"))));
        assert!(matches!(&ms[1].0, Cow::Owned(s) if s == "e\\sc"));
        let Value::Array(es) = &ms[1].1 else { panic!("an array") };
        assert!(matches!(&es[0], Value::String(Cow::Owned(s)) if s == "a\tb"));
        assert!(matches!(es[1], Value::String(Cow::Borrowed("c"))));
    }
    // Members and elements are handed out in place.
    let Value::Object(ms) = &v else { panic!("an object") };
    assert!(std::ptr::eq((&v).get("plain").unwrap(), &ms[0].1));
    let Value::Array(es) = &ms[1].1 else { panic!("an array") };
    assert!(std::ptr::eq((&v).get("e\\sc").index_at(1).unwrap(), &es[1]));
}
