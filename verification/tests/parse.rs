use std::cell::Cell;

use asmjson::{
    is_valid_json_number, parse_json, parse_to_dom, parse_with, unescape_str, JsonRef, Sax,
    TapeEntry, MAX_JSON_DEPTH,
};

#[derive(Default)]
struct EventLog(String);

impl<'s> Sax<'s> for EventLog {
    type Output = String;
    fn null(&mut self) {
        self.0.push_str("null;");
    }
    fn bool_val(&mut self, v: bool) {
        self.0.push_str(if v { "true;" } else { "false;" });
    }
    fn number(&mut self, s: &str) {
        self.0.push_str(s);
        self.0.push(';');
    }
    fn string(&mut self, s: &str) {
        self.0.push_str("s:");
        self.0.push_str(s);
        self.0.push(';');
    }
    fn escaped_string(&mut self, s: &str) {
        self.0.push_str("es:");
        self.0.push_str(s);
        self.0.push(';');
    }
    fn key(&mut self, s: &str) {
        self.0.push_str("k:");
        self.0.push_str(s);
        self.0.push(';');
    }
    fn escaped_key(&mut self, s: &str) {
        self.0.push_str("ek:");
        self.0.push_str(s);
        self.0.push(';');
    }
    fn start_object(&mut self) {
        self.0.push('{');
    }
    fn end_object(&mut self) {
        self.0.push('}');
    }
    fn start_array(&mut self) {
        self.0.push('[');
    }
    fn end_array(&mut self) {
        self.0.push(']');
    }
    fn finish(self) -> Option<String> {
        Some(self.0)
    }
}

fn log(src: &str) -> Option<String> {
    parse_with(src, EventLog::default())
}

fn decoded(raw: &str) -> String {
    let mut out = String::from("left over");
    unescape_str(raw, &mut out);
    out
}

#[test]
fn rust_even_backslash_before_quote() {
    // `\\` = one literal backslash, then `"` terminates string → decoded = `\`
    let t = parse_to_dom(r#"{"k":"\\"}"#).expect("parse failed");
    assert_eq!(t.root().get("k").as_str(), Some("\\"));
    // `\\\\` = two literal backslashes → decoded = `\\`
    let t = parse_to_dom(r#"{"k":"\\\\"}"#).expect("parse failed");
    assert_eq!(t.root().get("k").as_str(), Some("\\\\"));
    // `\\` inside array
    let t = parse_to_dom(r#"["\\"]"#).expect("parse failed");
    assert_eq!(t.root().index_at(0).as_str(), Some("\\"));
    // Mixed content: `abc\\` followed by closing quote → decoded = `abc\`
    let t = parse_to_dom(r#"{"k":"abc\\"}"#).expect("parse failed");
    assert_eq!(t.root().get("k").as_str(), Some("abc\\"));
    // Three backslashes before `"`: `\\` escapes itself, `\"` escapes the quote.
    // So `\\\"` does NOT close the string; the outer `"` closes it.
    // Decoded value = `\"` (backslash + quote).
    let t = parse_to_dom("{\"k\":\"\\\\\\\"\"}").expect("parse failed");
    assert_eq!(t.root().get("k").as_str(), Some("\\\""));
}

#[test]
fn events_in_document_order() {
    assert_eq!(
        log(r#" {"a" : [1, true , null], "b\n":"x\ty", "c":{} } "#).unwrap(),
        "{k:a;[1;true;null;]ek:b\\n;es:x\\ty;k:c;{}}"
    );
    assert_eq!(log(r#"{"key":"\n\t\r\""}"#).unwrap(), r#"{k:key;es:\n\t\r\";}"#);
    assert_eq!(log(r#"["\u0041","\u0042\u0043"]"#).unwrap(), r#"[es:\u0041;es:\u0042\u0043;]"#);
    assert_eq!(log(r#"{"a\"b":"c\"d"}"#).unwrap(), r#"{ek:a\"b;es:c\"d;}"#);
    assert_eq!(log("false").unwrap(), "false;");
    assert_eq!(log("-12.5e+3 ").unwrap(), "-12.5e+3;");
}

#[test]
fn strings_longer_than_a_chunk() {
    let x = "x".repeat(70);
    let y = "y".repeat(70);
    let src = format!(r#"{{"{}\n":"{}\t"}}"#, x, y);
    assert_eq!(log(&src).unwrap(), format!("{{ek:{}\\n;es:{}\\t;}}", x, y));
    let long = format!(r#""{}""#, "a".repeat(200));
    assert_eq!(parse_to_dom(&long).unwrap().root().as_str(), Some("a".repeat(200).as_str()));
}

#[test]
fn closing_quote_at_every_offset_of_a_chunk() {
    // Ordinary characters between an escape and the closing quote break the run of
    // backslashes wherever a chunk ends.
    for pad in 0..140usize {
        let src = format!("\"\\n{}\"", "z".repeat(pad));
        let t = parse_to_dom(&src).unwrap();
        assert_eq!(t.root().as_str(), Some(format!("\n{}", "z".repeat(pad)).as_str()), "{pad}");
        let src = format!("[\"{}\\\\\",1]", "z".repeat(pad));
        let t = parse_to_dom(&src).unwrap();
        assert_eq!(t.root().index_at(1).as_i64(), Some(1), "{pad}");
        let src = format!("\"{}\\\"\"", "z".repeat(pad));
        let t = parse_to_dom(&src).unwrap();
        assert_eq!(t.root().as_str(), Some(format!("{}\"", "z".repeat(pad)).as_str()), "{pad}");
    }
}

#[test]
fn bytes_next_to_quotes_and_backslashes() {
    // '#' differs from '"', and ']' from '\', in the lowest bit only.
    let t = parse_to_dom(r##"{"#k":"#v","a":"\\]"}"##).unwrap();
    assert_eq!(t.root().get("#k").as_str(), Some("#v"));
    assert_eq!(t.root().get("a").as_str(), Some("\\]"));
    let t = parse_to_dom(r##"["#"]"##).unwrap();
    assert_eq!(t.root().index_at(0).as_str(), Some("#"));
}

#[test]
fn tokens_across_chunk_ends() {
    for pad in 50..80usize {
        let src = format!("{}[12345, {{\"key\": false}} ]{}", " ".repeat(pad), "\n".repeat(pad));
        let t = parse_to_dom(&src).unwrap();
        assert_eq!(t.root().index_at(0).as_i64(), Some(12345));
        assert_eq!(t.root().index_at(1).get("key").as_bool(), Some(false));
        assert!(parse_to_dom(&format!("{}[12345, ]", " ".repeat(pad))).is_none());
        assert!(parse_to_dom(&format!("{}[12345", " ".repeat(pad))).is_none());
    }
}

#[test]
fn rejected_inputs() {
    let inputs = [
        "", " ", "{", "[", "}", "]", ",", ":", "\"", "\"\\", "\"\\\"", r#"{"a":}"#, r#"{"a":1"#,
        "01", "00", "007", "01234567", "[1 2]", r#"{"a":1 "b":2}"#, r#"{"a",1}"#, "{1:2}", "[,1]",
        "[1,,2]", "{,}", r#"{"a":1,"b"}"#, "nulll", "truefalse", "- 1", "+1", "1e1.5", "NaN",
        "\u{e9}", "[\u{e9}]", "[1]]", "{}{}", "'a'", "[1,]", "[true,}", "tRue", "\u{feff}1",
    ];
    for src in inputs {
        assert!(parse_to_dom(src).is_none(), "{src:?}");
        assert!(parse_json(src).is_none(), "{src:?}");
        assert!(log(src).is_none(), "{src:?}");
    }
}

#[test]
fn control_characters_are_whitespace_between_tokens() {
    let t = parse_to_dom("\u{0}\u{1}[\u{b}1\u{1f},\u{7}2 ]\u{0}").unwrap();
    assert_eq!(t.root().len(), Some(2));
    // Inside a string they are kept as they are.
    let t = parse_to_dom("\"a\u{1}b\"").unwrap();
    assert_eq!(t.root().as_str(), Some("a\u{1}b"));
}

#[test]
fn surrounding_whitespace_makes_no_difference() {
    for src in ["[1,2]", "{\"a\":null}", "x", "12", "\"s\"", ""] {
        let padded = format!("\n\t {} \r\n\u{1f}", src);
        assert_eq!(log(src), log(&padded), "{src:?}");
    }
}

#[test]
fn nesting_limit() {
    let depth = MAX_JSON_DEPTH;
    let ok = format!("{}{}", "[".repeat(depth), "]".repeat(depth));
    assert_eq!(parse_to_dom(&ok).unwrap().entries.len(), 2 * depth);
    let deep = format!("{}{}", "[".repeat(depth + 1), "]".repeat(depth + 1));
    assert!(parse_to_dom(&deep).is_none());
    assert!(parse_json(&deep).is_none());
    let ok = format!("{}1{}", "{\"a\":".repeat(depth), "}".repeat(depth));
    assert!(parse_json(&ok).is_some());
    let deep = format!("{}1{}", "{\"a\":".repeat(depth + 1), "}".repeat(depth + 1));
    assert!(parse_json(&deep).is_none());
}

#[test]
fn escape_sequences() {
    assert_eq!(decoded(""), "");
    assert_eq!(decoded("plain \u{e9}\u{1f600}"), "plain \u{e9}\u{1f600}");
    assert_eq!(decoded(r#"\"\\\/\b\f\n\r\t"#), "\"\\/\u{8}\u{c}\n\r\t");
    assert_eq!(decoded(r"\u0041\u00e9\u20AC"), "A\u{e9}\u{20ac}");
    assert_eq!(decoded(r"surrogate \uD83D\uDE00!"), "surrogate \u{1f600}!");
    assert_eq!(decoded(r"\uDBFF\uDFFF"), "\u{10ffff}");
    assert_eq!(decoded(r"\u0000"), "\u{0}");
}

#[test]
fn broken_escape_sequences() {
    // Lone surrogates are dropped.
    assert_eq!(decoded(r"a\uD800b"), "ab");
    assert_eq!(decoded(r"a\uDC00b"), "ab");
    assert_eq!(decoded(r"\uD800\uD83D\uDE00"), "\u{1f600}");
    assert_eq!(decoded(r"\uD83D\u0041"), "A");
    assert_eq!(decoded(r"\uD83D\uDE0"), r"\uDE0");
    // Unknown escapes are passed through verbatim, and so is `\u` without four digits.
    assert_eq!(decoded(r"\u12"), r"\u12");
    assert_eq!(decoded(r"\uZZ"), r"\uZZ");
    assert_eq!(decoded(r"\uZZZZ"), r"\uZZZZ");
    assert_eq!(decoded(r"\u+041"), r"\u+041");
    assert_eq!(decoded(r"\u-041"), r"\u-041");
    assert_eq!(decoded(r"\u\u0041"), r"\uA");
    assert_eq!(decoded("\\u123\u{e9}"), "\\u123\u{e9}");
    assert_eq!(decoded(r"\q\x"), r"\q\x");
    assert_eq!(decoded("\\\u{e9}\\\u{1f600}"), "\\\u{e9}\\\u{1f600}");
    // A backslash at the very end is dropped.
    assert_eq!(decoded("a\\"), "a");
}

#[test]
fn numbers_valid_and_not() {
    for s in ["0", "-0", "10", "-1.0", "0.5", "1e5", "1E-5", "1e+5", "12.34e56", "-0.5e-3"] {
        assert!(is_valid_json_number(s.as_bytes()), "{s}");
    }
    for s in [
        "", "-", "+1", "01", "-01", "1.", ".5", "1e", "1e+", "1.e5", "--1", "1.2.3", "0x1", " 1",
        "1 ", "e5", "1e5.0", "1a",
    ] {
        assert!(!is_valid_json_number(s.as_bytes()), "{s}");
    }
}

#[test]
fn tape_and_tree_hold_the_same() {
    let src = r#"{"a\u0041":[1,{"b":"x\n"},[]],"c":null,"d":{"e":[true,false]}}"#;
    let t = parse_to_dom(src).unwrap();
    let v = parse_json(src).unwrap();
    assert_eq!(t.root().get("aA").index_at(0).as_i64(), Some(1));
    assert_eq!((&v).get("aA").index_at(0).as_i64(), Some(1));
    assert_eq!(t.root().get("aA").index_at(1).get("b").as_str(), Some("x\n"));
    assert_eq!((&v).get("aA").index_at(1).get("b").as_str(), Some("x\n"));
    assert_eq!(t.root().get("d").get("e").len(), Some(2));
    assert_eq!((&v).get("d").get("e").len(), Some(2));
    assert!(t.root().get("c").is_null() && (&v).get("c").is_null());
    assert_eq!(v.clone(), v);
}

#[test]
fn escaped_entries_own_their_text() {
    let t = parse_to_dom(r#"{"k\t":"v\\"}"#).unwrap();
    assert_eq!(
        t.entries,
        vec![
            TapeEntry::StartObject(3),
            TapeEntry::EscapedKey("k\t".to_string().into_boxed_str()),
            TapeEntry::EscapedString("v\\".to_string().into_boxed_str()),
            TapeEntry::end_object_entry(),
        ]
    );
    assert!(t.has_escapes);
    assert_ne!(t.entries[1], TapeEntry::Key("k\t"));
    assert!(!parse_to_dom(r#"{"k":"v"}"#).unwrap().has_escapes);
}

#[test]
fn every_character_is_decoded_from_its_code_units() {
    let mut escaped = String::new();
    let mut text = String::new();
    for c in ['\u{0}', 'A', '"', '\\', '\u{e9}', '\u{d7ff}', '\u{e000}', '\u{ffff}', '\u{10000}', '\u{1f600}', '\u{10ffff}'] {
        let mut units = [0u16; 2];
        for u in c.encode_utf16(&mut units).iter() {
            escaped.push_str(&format!("\\u{:04x}", u));
        }
        text.push(c);
    }
    assert_eq!(decoded(&escaped), text);
}

/// Counts the calls of `finish`, and the events that came before.
struct Finished<'c> {
    events: u32,
    calls: &'c Cell<Vec<u32>>,
    output: Option<u32>,
}

impl<'c> Finished<'c> {
    fn event(&mut self) {
        self.events += 1;
    }
}

impl<'s, 'c> Sax<'s> for Finished<'c> {
    type Output = u32;
    fn null(&mut self) {
        self.event();
    }
    fn bool_val(&mut self, _v: bool) {
        self.event();
    }
    fn number(&mut self, _s: &str) {
        self.event();
    }
    fn string(&mut self, _s: &str) {
        self.event();
    }
    fn escaped_string(&mut self, _s: &str) {
        self.event();
    }
    fn key(&mut self, _s: &str) {
        self.event();
    }
    fn escaped_key(&mut self, _s: &str) {
        self.event();
    }
    fn start_object(&mut self) {
        self.event();
    }
    fn end_object(&mut self) {
        self.event();
    }
    fn start_array(&mut self) {
        self.event();
    }
    fn end_array(&mut self) {
        self.event();
    }
    fn finish(self) -> Option<u32> {
        let mut calls = self.calls.take();
        calls.push(self.events);
        self.calls.set(calls);
        self.output
    }
}

#[test]
fn finish_comes_once_behind_a_document_and_never_else() {
    let calls = Cell::new(Vec::new());
    let run = |src: &str, output: Option<u32>| {
        let r = parse_with(src, Finished { events: 0, calls: &calls, output });
        (r, calls.take())
    };
    assert_eq!(run("null", Some(7)), (Some(7), vec![1]));
    assert_eq!(run(r#"{"a":[1,"\n"]}"#, Some(8)), (Some(8), vec![7]));
    assert_eq!(run("[]", None), (None, vec![2]));
    let deep = "[".repeat(65) + &"]".repeat(65);
    for src in ["", "nul", "[1", "[1}", "1 2", "[1,]", "{\"a\"}", "\"open", &deep] {
        assert_eq!(run(src, Some(9)), (None, vec![]), "{src}");
    }
}
