use asmjson::capacity::{after_attempt, initial_capacity, Attempt};
use asmjson::de::{
    unit_only, visit_any, visit_enum, visit_is_none, visit_map, visit_seq, visit_signed,
    visit_unit, visit_unsigned, EnumVisit, Error, VariantShape, Visit,
};
use asmjson::show::{in_brackets, numbered};
use asmjson::{
    classify_u64, parse_to_dom, ByteState, JsonRef, Sax, Tape, TapeEntry, TapeEntryKind, TapeWriter,
    ValueWriter,
};

fn bits(chunk: &[u8], f: fn(u8) -> bool, past_the_end: bool) -> u64 {
    let mut mask = 0u64;
    for n in 0..64 {
        let set = if n < chunk.len() { f(chunk[n]) } else { past_the_end };
        if set {
            mask |= 1 << n;
        }
    }
    mask
}

fn expected(chunk: &[u8]) -> ByteState {
    ByteState {
        whitespace: bits(chunk, |c| c <= 0x20, true),
        quotes: bits(chunk, |c| c == b'"', false),
        backslashes: bits(chunk, |c| c == b'\\', false),
        delimiters: bits(chunk, |c| c <= 0x20 || c == b',' || c == b'}' || c == b']', true),
    }
}

#[test]
fn classification_of_every_byte() {
    for c in 0..=255u8 {
        assert_eq!(classify_u64(&[c]), expected(&[c]), "{c}");
        // Every byte behind each of the bytes that are looked for.
        for d in [b'"', b'\\', b',', b'}', b']', b' ', 0u8] {
            let chunk = [d, c, c, d, c, d, d, c, c];
            assert_eq!(classify_u64(&chunk), expected(&chunk), "{d} {c}");
        }
    }
}

#[test]
fn classification_of_every_length() {
    let text = b"{\"a\\\"b#\": [1, 2,-3], \"]\\]\": {}}\t\n\x00\x7f\x80\xff{\"x\":[true,false,null]}  end";
    for len in 1..=64usize {
        assert_eq!(classify_u64(&text[..len]), expected(&text[..len]), "{len}");
    }
}

#[test]
fn entries_keep_kind_payload_and_text() {
    let entries = vec![
        (TapeEntry::null_entry(), TapeEntryKind::Null),
        (TapeEntry::bool_entry(true), TapeEntryKind::Bool),
        (TapeEntry::number_entry("7"), TapeEntryKind::Number),
        (TapeEntry::string_entry("s"), TapeEntryKind::String),
        (TapeEntry::escaped_string_entry("e".into()), TapeEntryKind::EscapedString),
        (TapeEntry::key_entry("k"), TapeEntryKind::Key),
        (TapeEntry::escaped_key_entry("x".into()), TapeEntryKind::EscapedKey),
        (TapeEntry::start_object_entry(12), TapeEntryKind::StartObject),
        (TapeEntry::end_object_entry(), TapeEntryKind::EndObject),
        (TapeEntry::start_array_entry(34), TapeEntryKind::StartArray),
        (TapeEntry::end_array_entry(), TapeEntryKind::EndArray),
    ];
    for (i, (e, kind)) in entries.iter().enumerate() {
        assert_eq!(e.kind(), *kind);
        assert_eq!(*kind as usize, i);
        assert_eq!(e.as_bool(), if i == 1 { Some(true) } else { None });
        assert_eq!(e.as_number(), if i == 2 { Some("7") } else { None });
        let text = if i == 3 {
            Some("s")
        } else if i == 4 {
            Some("e")
        } else {
            None
        };
        assert_eq!(e.as_string(), text);
        let key = if i == 5 {
            Some("k")
        } else if i == 6 {
            Some("x")
        } else {
            None
        };
        assert_eq!(e.as_key(), key);
        assert_eq!(e.source_string(), if i == 3 { Some("s") } else { None });
        assert_eq!(e.as_start_object(), if i == 7 { Some(12) } else { None });
        assert_eq!(e.as_start_array(), if i == 9 { Some(34) } else { None });
        assert_eq!(e.clone(), *e);
        for (j, (other, _)) in entries.iter().enumerate() {
            assert_eq!(e == other, i == j);
        }
    }
    assert_ne!(TapeEntry::Bool(true), TapeEntry::Bool(false));
    assert_ne!(TapeEntry::StartObject(1), TapeEntry::StartObject(2));
    assert_ne!(TapeEntry::String("a"), TapeEntry::String("b"));
}

#[test]
fn payload_has_sixty_bits() {
    let range = 1usize << 60;
    assert_eq!(TapeEntry::StartObject(range - 1).as_start_object(), Some(range - 1));
    assert_eq!(TapeEntry::StartObject(range + 5).as_start_object(), Some(5));
    assert_eq!(TapeEntry::StartArray(usize::MAX).as_start_array(), Some(range - 1));
}

#[test]
fn every_start_points_at_its_closer() {
    let t = parse_to_dom(r#"[[],{"a":[1,[2]],"b":{}},"x"]"#).unwrap();
    let mut starts = 0;
    for (i, e) in t.entries.iter().enumerate() {
        if let Some(end) = e.as_start_object() {
            assert!(i < end && t.entries[end].kind() == TapeEntryKind::EndObject);
            starts += 1;
        }
        if let Some(end) = e.as_start_array() {
            assert!(i < end && t.entries[end].kind() == TapeEntryKind::EndArray);
            starts += 1;
        }
    }
    assert_eq!(starts, 6);
    // Behind the object that starts at 3 the next sibling stands.
    let end = t.entries[3].as_start_object().unwrap();
    assert_eq!(t.entries[end + 1], TapeEntry::String("x"));
}

#[test]
fn empty_tape_has_no_root() {
    let t = Tape { entries: vec![], has_escapes: false };
    assert!(t.root().is_none());
    assert_eq!(t.root().len(), None);
}

#[test]
fn writers_refuse_what_is_not_closed() {
    let mut w = TapeWriter::new();
    w.start_array();
    w.null();
    assert!(w.finish().is_none());
    let mut w = TapeWriter::new();
    w.start_array();
    w.escaped_string("\\u0041");
    w.end_array();
    let t = w.finish().unwrap();
    assert_eq!(
        t.entries,
        vec![
            TapeEntry::StartArray(2),
            TapeEntry::EscapedString("A".into()),
            TapeEntry::end_array_entry(),
        ]
    );
    let mut w = ValueWriter::new();
    w.start_object();
    w.key("k");
    w.bool_val(true);
    assert!(w.finish().is_none());
    assert!(ValueWriter::new().finish().is_none());
}

#[test]
fn visits_of_every_kind() {
    let t = parse_to_dom(r#"[null,true,18446744073709551615,-5,1.5,"s","\u0041",[1],{"k":2}]"#)
        .unwrap();
    let root = t.root().unwrap();
    let at = |i: usize| root.index_at(i).unwrap();
    assert!(matches!(visit_any(at(0)), Ok(Visit::Unit)));
    assert!(matches!(visit_any(at(1)), Ok(Visit::Bool(true))));
    assert!(matches!(visit_any(at(2)), Ok(Visit::U64(u64::MAX))));
    assert!(matches!(visit_any(at(3)), Ok(Visit::I64(-5))));
    assert!(matches!(visit_any(at(4)), Ok(Visit::Number("1.5"))));
    assert!(matches!(visit_any(at(5)), Ok(Visit::BorrowedStr("s"))));
    assert!(matches!(visit_any(at(6)), Ok(Visit::Str("A"))));
    match visit_any(at(7)) {
        Ok(Visit::Array(mut a)) => {
            assert_eq!(a.next_element().unwrap().as_i64(), Some(1));
            assert!(a.next_element().is_none());
        }
        _ => panic!("not an array"),
    }
    match visit_any(at(8)) {
        Ok(Visit::Object(mut a)) => {
            assert_eq!(a.next_key(), Some("k"));
            assert_eq!(a.next_value().unwrap().as_i64(), Some(2));
            let e = a.next_value().err().unwrap();
            assert_eq!(e.message(), "next_value called before next_key");
            assert_eq!(a.next_key(), None);
        }
        _ => panic!("not an object"),
    }
    assert_eq!(visit_signed(at(3)), Some(Ok(-5)));
    assert_eq!(visit_signed(at(2)), Some(Err("18446744073709551615")));
    assert_eq!(visit_signed(at(0)), None);
    assert_eq!(visit_unsigned(at(2)), Some(Ok(u64::MAX)));
    assert_eq!(visit_unsigned(at(3)), Some(Err("-5")));
    assert_eq!(visit_unsigned(at(5)), None);
    assert!(visit_is_none(at(0)) && !visit_is_none(at(1)));
}

#[test]
fn errors_of_the_wrong_kind() {
    let t = parse_to_dom(r#"[null,[],{},"V",{"W":[1]},7]"#).unwrap();
    let root = t.root().unwrap();
    let at = |i: usize| root.index_at(i).unwrap();
    assert!(visit_unit(at(0)).is_ok());
    assert_eq!(visit_unit(at(1)), Err(Error::custom("expected null")));
    assert!(visit_seq(at(1)).is_ok());
    assert_eq!(visit_seq(at(2)).err().unwrap().message(), "expected JSON array");
    assert!(visit_map(at(2)).is_ok());
    assert_eq!(visit_map(at(1)).err().unwrap().message(), "expected JSON object");
    match visit_enum(at(3)) {
        Ok(EnumVisit::UnitVariant(c)) => assert_eq!(c.as_str(), Some("V")),
        _ => panic!("not a unit variant"),
    }
    match visit_enum(at(4)) {
        Ok(EnumVisit::Variant(name, c)) => {
            assert_eq!(name, "W");
            assert_eq!(c.len(), Some(1));
        }
        _ => panic!("not a variant"),
    }
    assert_eq!(
        visit_enum(at(5)).err().unwrap().message(),
        "expected string or single-key object for enum"
    );
    assert!(unit_only(VariantShape::Unit).is_ok());
    let message = |shape| unit_only(shape).err().unwrap().message().to_string();
    assert_eq!(message(VariantShape::Newtype), "expected unit variant, got newtype");
    assert_eq!(message(VariantShape::Tuple), "expected unit variant, got tuple");
    assert_eq!(message(VariantShape::Struct), "expected unit variant, got struct");
    // A cursor on a key: only a tape that was put together by hand has one at its root.
    let odd = Tape { entries: vec![TapeEntry::Key("k")], has_escapes: false };
    assert_eq!(
        visit_any(odd.root().unwrap()).err().unwrap().message(),
        "unexpected tape entry at value position"
    );
    assert_ne!(Error::custom("a"), Error::custom("b"));
}

#[test]
fn room_for_a_tape() {
    assert_eq!(initial_capacity(0, None), 2);
    assert_eq!(initial_capacity(11, None), 2);
    assert_eq!(initial_capacity(400, None), 100);
    assert_eq!(initial_capacity(400, Some(4)), 4);
    assert_eq!(initial_capacity(400, Some(0)), 0);
    assert!(matches!(after_attempt(0, 4), Attempt::Accepted));
    assert!(matches!(after_attempt(1, 4), Attempt::Rejected));
    assert!(matches!(after_attempt(2, 4), Attempt::Retry(8)));
    assert!(matches!(after_attempt(2, 0), Attempt::Retry(1)));
    assert!(matches!(after_attempt(2, 1), Attempt::Retry(2)));
    assert!(matches!(after_attempt(2, usize::MAX - 1), Attempt::Retry(usize::MAX)));
    assert!(matches!(after_attempt(3, 4), Attempt::Rejected));
}

#[test]
fn entries_are_shown_by_kind_and_content() {
    let shows = |e: TapeEntry, text: &str| {
        assert_eq!(format!("{e:?}"), text);
        assert_eq!(e.debug_text(), text);
        assert_eq!(format!("{:?}", e.clone()), text);
    };
    shows(TapeEntry::null_entry(), "Null");
    shows(TapeEntry::bool_entry(true), "Bool(true)");
    shows(TapeEntry::bool_entry(false), "Bool(false)");
    shows(TapeEntry::number_entry("-12"), "Number(\"-12\")");
    shows(TapeEntry::string_entry("hi"), "String(\"hi\")");
    shows(TapeEntry::escaped_string_entry("a\"b\n\\".into()), r#"EscapedString("a\"b\n\\")"#);
    shows(TapeEntry::key_entry(""), "Key(\"\")");
    shows(TapeEntry::escaped_key_entry("caf\u{e9}".into()), "EscapedKey(\"caf\u{e9}\")");
    shows(TapeEntry::start_object_entry(0), "StartObject(0)");
    shows(TapeEntry::start_object_entry(9), "StartObject(9)");
    shows(TapeEntry::start_object_entry(1234567890), "StartObject(1234567890)");
    shows(TapeEntry::end_object_entry(), "EndObject");
    shows(TapeEntry::start_array_entry(10), "StartArray(10)");
    shows(TapeEntry::end_array_entry(), "EndArray");
    assert_eq!(in_brackets("Key", "\"k\""), "Key(\"k\")");
    assert_eq!(numbered("StartArray", 305), "StartArray(305)");
    // Other formatting options make no difference to an entry.
    assert_eq!(format!("{:#?}", TapeEntry::string_entry("hi")), "String(\"hi\")");
    assert_eq!(
        format!("{:?}", parse_to_dom("[1]").unwrap()),
        "Tape { entries: [StartArray(2), Number(\"1\"), EndArray], has_escapes: false }"
    );
    assert_ne!(TapeEntry::end_object_entry(), TapeEntry::end_array_entry());
    assert_ne!(TapeEntry::end_object_entry(), TapeEntry::null_entry());
}

#[test]
fn any_hint_ends_with_room_enough() {
    // Attempts on a source that takes `needed` entries; the rooms that were tried.
    fn rooms(needed: usize, verdict: u8, hint: Option<usize>) -> (Vec<usize>, bool) {
        let mut tried = vec![initial_capacity(1000, hint)];
        loop {
            let room = tried[tried.len() - 1];
            let code = if room < needed { 2 } else { verdict };
            match after_attempt(code, room) {
                Attempt::Accepted => return (tried, true),
                Attempt::Rejected => return (tried, false),
                Attempt::Retry(more) => tried.push(more),
            }
        }
    }
    assert_eq!(rooms(22, 0, Some(0)), (vec![0, 1, 2, 4, 8, 16, 32], true));
    assert_eq!(rooms(22, 0, Some(22)), (vec![22], true));
    assert_eq!(rooms(22, 0, Some(21)), (vec![21, 42], true));
    assert_eq!(rooms(22, 0, None), (vec![250], true));
    assert_eq!(rooms(22, 1, Some(3)), (vec![3, 6, 12, 24], false));
    assert_eq!(rooms(22, 1, None), (vec![250], false));
}
