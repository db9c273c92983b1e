//! The grammar as a pushdown machine, token by token, and the proof that the two agree.
use vstd::prelude::*;

use crate::grammar;
use crate::grammar::{
    Event, Node, COLON, COMMA, LEFT_BRACE, LEFT_BRACKET, MAX_JSON_DEPTH, QUOTE, RIGHT_BRACE,
    RIGHT_BRACKET,
};

verus! {

/// What encloses the current position.
#[derive(Copy, Clone, PartialEq, Eq, Structural)]
pub enum FrameKind {
    Object,
    Array,
}

/// What the machine waits for, between two tokens.
pub enum Mode {
    /// A value.
    Value,
    /// A key, or the end of the object unless a comma came before.
    ObjectStart(bool),
    /// An element, or the end of the array unless a comma came before.
    ArrayStart(bool),
    /// The colon behind the key with this raw text.
    KeyEnd(Seq<char>),
    /// What may follow a value.
    After,
}

/// `es` in front of the events `r`, if there are any.
pub open spec fn prepend(es: Seq<Event>, r: Option<Seq<Event>>) -> Option<Seq<Event>> {
    match r {
        Some(s) => Some(es + s),
        None => None,
    }
}

/// The events that are still to come when a value starts at `j`, or nothing if the
/// rest of `b` is not well-formed.
pub open spec fn rest_value(b: Seq<u8>, j: int, frames: Seq<FrameKind>) -> Option<Seq<Event>>
    decreases b.len() - j, 0nat,
{
    if !(0 <= j < b.len()) {
        None
    } else if b[j] == LEFT_BRACE {
        if frames.len() >= MAX_JSON_DEPTH {
            None
        } else {
            prepend(
                seq![Event::StartObject],
                rest(b, j + 1, Mode::ObjectStart(false), frames.push(FrameKind::Object)),
            )
        }
    } else if b[j] == LEFT_BRACKET {
        if frames.len() >= MAX_JSON_DEPTH {
            None
        } else {
            prepend(
                seq![Event::StartArray],
                rest(b, j + 1, Mode::ArrayStart(false), frames.push(FrameKind::Array)),
            )
        }
    } else if b[j] == QUOTE {
        proof {
            grammar::lemma_string_end(b, j + 1);
        }
        match grammar::string_end(b, j + 1) {
            Some(k) => prepend(
                seq![grammar::string_event(grammar::text(b, j + 1, k))],
                rest(b, k + 1, Mode::After, frames),
            ),
            None => None,
        }
    } else {
        let k = grammar::atom_end(b, j);
        proof {
            grammar::lemma_atom_end(b, j);
        }
        match grammar::atom(grammar::text(b, j, k)) {
            Some(n) => if k > j {
                prepend(grammar::events(n), rest(b, k, Mode::After, frames))
            } else {
                None
            },
            None => None,
        }
    }
}

/// The events that are still to come at `i`, or nothing if the rest of `b` is not
/// well-formed.
pub open spec fn rest(b: Seq<u8>, i: int, mode: Mode, frames: Seq<FrameKind>) -> Option<Seq<Event>>
    decreases b.len() - i, 1nat,
{
    let j = grammar::skip_whitespace(b, i);
    proof {
        grammar::lemma_skip_whitespace(b, i);
    }
    if i < 0 {
        None
    } else if j >= b.len() {
        if mode is After && frames.len() == 0 {
            Some(seq![])
        } else {
            None
        }
    } else {
        match mode {
            Mode::Value => rest_value(b, j, frames),
            Mode::ObjectStart(after_comma) => if b[j] == QUOTE {
                proof {
                    grammar::lemma_string_end(b, j + 1);
                }
                match grammar::string_end(b, j + 1) {
                    Some(k) => rest(
                        b,
                        k + 1,
                        Mode::KeyEnd(grammar::text(b, j + 1, k)),
                        frames,
                    ),
                    None => None,
                }
            } else if b[j] == RIGHT_BRACE && !after_comma {
                rest_close(b, j, FrameKind::Object, frames)
            } else {
                None
            },
            Mode::ArrayStart(after_comma) => if b[j] == RIGHT_BRACKET && !after_comma {
                rest_close(b, j, FrameKind::Array, frames)
            } else {
                rest_value(b, j, frames)
            },
            Mode::KeyEnd(raw) => if b[j] == COLON {
                prepend(seq![grammar::key_event(raw)], rest(b, j + 1, Mode::Value, frames))
            } else {
                None
            },
            Mode::After => if b[j] == COMMA {
                if frames.len() == 0 {
                    None
                } else if frames.last() == FrameKind::Object {
                    rest(b, j + 1, Mode::ObjectStart(true), frames)
                } else {
                    rest(b, j + 1, Mode::ArrayStart(true), frames)
                }
            } else if b[j] == RIGHT_BRACE {
                rest_close(b, j, FrameKind::Object, frames)
            } else if b[j] == RIGHT_BRACKET {
                rest_close(b, j, FrameKind::Array, frames)
            } else {
                None
            },
        }
    }
}

/// The events that are still to come at the closing bracket at `j`, which closes a
/// container of the given kind.
pub open spec fn rest_close(b: Seq<u8>, j: int, kind: FrameKind, frames: Seq<FrameKind>) -> Option<
    Seq<Event>,
>
    decreases b.len() - j, 0nat,
{
    if 0 <= j < b.len() && frames.len() > 0 && frames.last() == kind {
        prepend(
            seq![
                if kind == FrameKind::Object {
                    Event::EndObject
                } else {
                    Event::EndArray
                },
            ],
            rest(b, j + 1, Mode::After, frames.drop_last()),
        )
    } else {
        None
    }
}

/// What `rest_close` says, for use where it stands inside `rest`.
proof fn lemma_rest_close(b: Seq<u8>, j: int, kind: FrameKind, frames: Seq<FrameKind>)
    ensures
        rest_close(b, j, kind, frames) == (if 0 <= j < b.len() && frames.len() > 0 && frames.last()
            == kind {
            prepend(
                seq![
                    if kind == FrameKind::Object {
                        Event::EndObject
                    } else {
                        Event::EndArray
                    },
                ],
                rest(b, j + 1, Mode::After, frames.drop_last()),
            )
        } else {
            None
        }),
{
}

/// Where a value starts, the machine reports the value and goes on behind it.
proof fn lemma_rest_value(b: Seq<u8>, i: int, frames: Seq<FrameKind>)
    requires
        0 <= i < b.len(),
    ensures
        match grammar::value(b, i, frames.len()) {
            Some((n, j)) => i < j <= b.len() && rest_value(b, i, frames) == prepend(
                grammar::events(n),
                rest(b, j, Mode::After, frames),
            ),
            None => rest_value(b, i, frames) is None,
        },
    decreases b.len() - i, 0nat,
{
    let depth = frames.len();
    if b[i] == LEFT_BRACE {
        if depth < MAX_JSON_DEPTH {
            let inner = frames.push(FrameKind::Object);
            assert(inner.drop_last() =~= frames);
            lemma_rest_members(b, i + 1, false, inner);
            if let Some((ms, j)) = grammar::members(b, i + 1, false, depth + 1) {
                lemma_prepend(
                    seq![Event::StartObject],
                    grammar::member_events(ms) + seq![Event::EndObject],
                    rest(b, j, Mode::After, frames),
                );
                assert(grammar::events(Node::Object(ms)) =~= seq![Event::StartObject] + (
                grammar::member_events(ms) + seq![Event::EndObject]));
            }
        }
    } else if b[i] == LEFT_BRACKET {
        if depth < MAX_JSON_DEPTH {
            let inner = frames.push(FrameKind::Array);
            assert(inner.drop_last() =~= frames);
            lemma_rest_elements(b, i + 1, false, inner);
            if let Some((es, j)) = grammar::elements(b, i + 1, false, depth + 1) {
                lemma_prepend(
                    seq![Event::StartArray],
                    grammar::element_events(es) + seq![Event::EndArray],
                    rest(b, j, Mode::After, frames),
                );
                assert(grammar::events(Node::Array(es)) =~= seq![Event::StartArray] + (
                grammar::element_events(es) + seq![Event::EndArray]));
            }
        }
    } else if b[i] == QUOTE {
        grammar::lemma_string_end(b, i + 1);
    } else {
        grammar::lemma_atom_end(b, i);
        let j = grammar::atom_end(b, i);
        if j == i {
            assert(b.subrange(i, j) =~= Seq::<u8>::empty());
            grammar::lemma_no_empty_atom();
        }
    }
}

proof fn lemma_prepend(x: Seq<Event>, y: Seq<Event>, r: Option<Seq<Event>>)
    ensures
        prepend(x, prepend(y, r)) == prepend(x + y, r),
{
    if let Some(s) = r {
        assert(x + (y + s) =~= (x + y) + s);
    }
}

/// Inside an array the machine reports the elements, closes the array and goes on.
proof fn lemma_rest_elements(b: Seq<u8>, i: int, after_comma: bool, frames: Seq<FrameKind>)
    requires
        0 <= i <= b.len(),
        frames.len() > 0,
        frames.last() == FrameKind::Array,
    ensures
        match grammar::elements(b, i, after_comma, frames.len()) {
            Some((es, j)) => i < j <= b.len() && rest(b, i, Mode::ArrayStart(after_comma), frames)
                == prepend(
                grammar::element_events(es) + seq![Event::EndArray],
                rest(b, j, Mode::After, frames.drop_last()),
            ),
            None => rest(b, i, Mode::ArrayStart(after_comma), frames) is None,
        },
    decreases b.len() - i, 1nat,
{
    let depth = frames.len();
    let j = grammar::skip_whitespace(b, i);
    grammar::lemma_skip_whitespace(b, i);
    let end = seq![Event::EndArray];
    if j < b.len() {
        if b[j] == RIGHT_BRACKET && !after_comma {
            assert(grammar::element_events(seq![]) + end =~= end);
            lemma_rest_close(b, j, FrameKind::Array, frames);
        } else {
            lemma_rest_value(b, j, frames);
            if let Some((n, k)) = grammar::value(b, j, depth) {
                let m = grammar::skip_whitespace(b, k);
                grammar::lemma_skip_whitespace(b, k);
                if m < b.len() {
                    lemma_rest_close(b, m, FrameKind::Object, frames);
                    lemma_rest_close(b, m, FrameKind::Array, frames);
                    if b[m] == COMMA {
                        lemma_rest_elements(b, m + 1, true, frames);
                        if let Some((es, e)) = grammar::elements(b, m + 1, true, depth) {
                            let all = seq![n] + es;
                            assert(all.drop_first() =~= es);
                            let after = rest(b, e, Mode::After, frames.drop_last());
                            lemma_prepend(
                                grammar::events(n),
                                grammar::element_events(es) + end,
                                after,
                            );
                            assert(grammar::element_events(all) + end =~= grammar::events(n) + (
                            grammar::element_events(es) + end));
                        }
                    } else if b[m] == RIGHT_BRACKET {
                        let all = seq![n];
                        assert(all.drop_first() =~= seq![]);
                        assert(grammar::element_events(seq![]) =~= seq![]);
                        assert(grammar::element_events(all) =~= grammar::events(n));
                        let after = rest(b, m + 1, Mode::After, frames.drop_last());
                        lemma_prepend(grammar::events(n), end, after);
                    }
                }
            }
        }
    }
}

/// Inside an object the machine reports the members, closes the object and goes on.
proof fn lemma_rest_members(b: Seq<u8>, i: int, after_comma: bool, frames: Seq<FrameKind>)
    requires
        0 <= i <= b.len(),
        frames.len() > 0,
        frames.last() == FrameKind::Object,
    ensures
        match grammar::members(b, i, after_comma, frames.len()) {
            Some((ms, j)) => i < j <= b.len() && rest(b, i, Mode::ObjectStart(after_comma), frames)
                == prepend(
                grammar::member_events(ms) + seq![Event::EndObject],
                rest(b, j, Mode::After, frames.drop_last()),
            ),
            None => rest(b, i, Mode::ObjectStart(after_comma), frames) is None,
        },
    decreases b.len() - i, 1nat,
{
    let depth = frames.len();
    let j = grammar::skip_whitespace(b, i);
    grammar::lemma_skip_whitespace(b, i);
    let end = seq![Event::EndObject];
    if j < b.len() {
        if b[j] == RIGHT_BRACE && !after_comma {
            assert(grammar::member_events(seq![]) + end =~= end);
            lemma_rest_close(b, j, FrameKind::Object, frames);
        } else if b[j] == QUOTE {
            grammar::lemma_string_end(b, j + 1);
            if let Some(q) = grammar::string_end(b, j + 1) {
                let raw = grammar::text(b, j + 1, q);
                let key = seq![grammar::key_event(raw)];
                let c = grammar::skip_whitespace(b, q + 1);
                grammar::lemma_skip_whitespace(b, q + 1);
                if c < b.len() && b[c] == COLON {
                    let v = grammar::skip_whitespace(b, c + 1);
                    grammar::lemma_skip_whitespace(b, c + 1);
                    assert(rest(b, q + 1, Mode::KeyEnd(raw), frames) == prepend(
                        key,
                        rest(b, c + 1, Mode::Value, frames),
                    ));
                    if v < b.len() {
                        lemma_rest_value(b, v, frames);
                        if let Some((n, k)) = grammar::value(b, v, depth) {
                            let m = grammar::skip_whitespace(b, k);
                            grammar::lemma_skip_whitespace(b, k);
                            if m < b.len() {
                                lemma_rest_close(b, m, FrameKind::Object, frames);
                                lemma_rest_close(b, m, FrameKind::Array, frames);
                                lemma_prepend(
                                    key,
                                    grammar::events(n),
                                    rest(b, k, Mode::After, frames),
                                );
                                if b[m] == COMMA {
                                    lemma_rest_members(b, m + 1, true, frames);
                                    if let Some((ms, e)) = grammar::members(b, m + 1, true, depth) {
                                        let all = seq![(raw, n)] + ms;
                                        assert(all.drop_first() =~= ms);
                                        let after = rest(b, e, Mode::After, frames.drop_last());
                                        lemma_prepend(
                                            key + grammar::events(n),
                                            grammar::member_events(ms) + end,
                                            after,
                                        );
                                        assert(grammar::member_events(all) + end =~= (key
                                            + grammar::events(n)) + (grammar::member_events(ms)
                                            + end));
                                    }
                                } else if b[m] == RIGHT_BRACE {
                                    let all = seq![(raw, n)];
                                    assert(all.drop_first() =~= seq![]);
                                    assert(grammar::member_events(seq![]) =~= seq![]);
                                    assert(grammar::member_events(all) =~= key + grammar::events(
                                        n,
                                    ));
                                    let after = rest(b, m + 1, Mode::After, frames.drop_last());
                                    lemma_prepend(key + grammar::events(n), end, after);
                                }
                            }
                        }
                    }
                }
            }
        }
    }
}

/// From the start of the source on the machine reports exactly the document.
pub proof fn lemma_rest_document(b: Seq<u8>)
    ensures
        rest(b, 0, Mode::Value, seq![]) == (match grammar::document(b) {
            Some(n) => Some(grammar::events(n)),
            None => None,
        }),
{
    let i = grammar::skip_whitespace(b, 0);
    grammar::lemma_skip_whitespace(b, 0);
    if i < b.len() {
        lemma_rest_value(b, i, seq![]);
        if let Some((n, j)) = grammar::value(b, i, 0) {
            let m = grammar::skip_whitespace(b, j);
            grammar::lemma_skip_whitespace(b, j);
            lemma_rest_close(b, m, FrameKind::Object, seq![]);
            lemma_rest_close(b, m, FrameKind::Array, seq![]);
            assert(grammar::events(n) + seq![] =~= grammar::events(n));
        }
    }
}

}
