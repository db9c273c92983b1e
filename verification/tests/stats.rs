use asmjson::stats::{get, reset, State, StateStats};
use asmjson::{parse_with, parse_with_stats, Tape, TapeWriter, Value, ValueWriter};

fn counts(src: &str) -> (Option<Value>, StateStats) {
    let mut stats = StateStats::new();
    let v = parse_with_stats(src, ValueWriter::new(), &mut stats);
    (v, get(&stats))
}

#[test]
fn stats_of_a_small_object() {
    let (v, s) = counts(r#"{"a":1}"#);
    assert!(v.is_some());
    assert_eq!(
        s,
        StateStats {
            value_whitespace: 1,
            string_chars: 0,
            string_escape: 0,
            key_chars: 1,
            key_escape: 0,
            key_end: 1,
            after_colon: 1,
            atom_chars: 1,
            object_start: 1,
            array_start: 0,
            after_value: 0,
        }
    );
}

#[test]
fn stats_of_an_array() {
    // Each element starts a scan, and the blank behind `1` one more.
    let (v, s) = counts(r#"[1 ,"x",[] ]"#);
    assert!(v.is_some());
    assert_eq!(s.value_whitespace, 1);
    assert_eq!(s.array_start, 4);
    assert_eq!(s.atom_chars, 1);
    assert_eq!(s.string_chars, 1);
    assert_eq!(s.after_value, 3);
    assert_eq!(s.object_start, 0);
}

#[test]
fn stats_count_backslashes_as_string_scans() {
    let (v, s) = counts(r#""a\"b""#);
    assert!(v.is_some());
    assert_eq!(s.string_chars, 3);
    assert_eq!(s.string_escape, 0);
    let (v, s) = counts(r#"{"a\\":null}"#);
    assert!(v.is_some());
    assert_eq!(s.key_chars, 3);
    assert_eq!(s.key_escape, 0);
}

#[test]
fn stats_start_anew_with_each_chunk() {
    let mut src = String::from("\"");
    for _ in 0..100 {
        src.push('x');
    }
    src.push('"');
    let (v, s) = counts(&src);
    assert!(v.is_some());
    assert_eq!(s.value_whitespace, 1);
    assert_eq!(s.string_chars, 2);
    assert_eq!(s.after_value, 0);
}

#[test]
fn stats_stop_at_an_error() {
    let (v, s) = counts("1 x  y  z");
    assert!(v.is_none());
    assert_eq!(s.value_whitespace, 1);
    assert_eq!(s.atom_chars, 1);
    assert_eq!(s.after_value, 1);
    assert_eq!(counts("").1, StateStats::new());
}

#[test]
fn stats_add_up_and_reset() {
    let mut stats = StateStats::new();
    let t: Option<Tape> = parse_with_stats("[]", TapeWriter::new(), &mut stats);
    assert!(t.is_some());
    let once = get(&stats);
    assert_eq!(once.array_start, 1);
    assert!(parse_with_stats("[]", TapeWriter::new(), &mut stats).is_some());
    assert_eq!(stats.array_start, 2);
    assert_eq!(stats.value_whitespace, 2);
    reset(&mut stats);
    assert_eq!(stats, StateStats::new());
    assert_eq!(once.array_start, 1);
}

#[test]
fn stats_wrap_around() {
    let mut stats = StateStats::new();
    stats.after_value = u64::MAX;
    stats.record(State::AfterValue);
    assert_eq!(stats.after_value, 0);
    let before = get(&stats);
    stats.record(State::Error);
    assert_eq!(stats, before);
}

#[test]
fn stats_do_not_change_the_result() {
    for src in ["{\"k\":[1,2,{}]}", "[1,]", "nul", "\"\\u0041\""] {
        assert_eq!(counts(src).0, parse_with(src, ValueWriter::new()));
    }
}
