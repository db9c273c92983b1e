//! The language that the parser accepts.
use vstd::prelude::*;
use vstd::utf8::*;

use crate::number;

verus! {

/// `"`
pub const QUOTE: u8 = 0x22;

/// `,`
pub const COMMA: u8 = 0x2c;

/// `:`
pub const COLON: u8 = 0x3a;

/// `[`
pub const LEFT_BRACKET: u8 = 0x5b;

/// `\`
pub const BACKSLASH: u8 = 0x5c;

/// `]`
pub const RIGHT_BRACKET: u8 = 0x5d;

/// `{`
pub const LEFT_BRACE: u8 = 0x7b;

/// `}`
pub const RIGHT_BRACE: u8 = 0x7d;

/// Whitespace: space and every control character below it.
pub open spec fn is_whitespace(c: u8) -> bool {
    c <= 0x20
}

/// A byte that ends an atom.
pub open spec fn is_delimiter(c: u8) -> bool {
    is_whitespace(c) || c == COMMA || c == RIGHT_BRACE || c == RIGHT_BRACKET
}

/// How deep objects and arrays may nest, both counted together.
pub const MAX_JSON_DEPTH: usize = 64;

/// An event that a parse reports to its writer.
///
/// Text is what stands between the quotes in the source, escape sequences not decoded.
#[verifier::ext_equal]
pub enum Event {
    Null,
    Bool(bool),
    Number(Seq<char>),
    String(Seq<char>),
    EscapedString(Seq<char>),
    Key(Seq<char>),
    EscapedKey(Seq<char>),
    StartObject,
    EndObject,
    StartArray,
    EndArray,
}

/// A value as the source spells it: numbers are text, strings and keys are raw.
#[verifier::ext_equal]
pub enum Node {
    Null,
    Bool(bool),
    Number(Seq<char>),
    String(Seq<char>),
    Object(Seq<(Seq<char>, Node)>),
    Array(Seq<Node>),
}

/// The event for a string value with the given raw text.
pub open spec fn string_event(raw: Seq<char>) -> Event {
    if raw.contains('\\') {
        Event::EscapedString(raw)
    } else {
        Event::String(raw)
    }
}

/// The event for an object key with the given raw text.
pub open spec fn key_event(raw: Seq<char>) -> Event {
    if raw.contains('\\') {
        Event::EscapedKey(raw)
    } else {
        Event::Key(raw)
    }
}

/// The events that report `n`, in document order.
pub open spec fn events(n: Node) -> Seq<Event>
    decreases n,
{
    match n {
        Node::Null => seq![Event::Null],
        Node::Bool(v) => seq![Event::Bool(v)],
        Node::Number(t) => seq![Event::Number(t)],
        Node::String(raw) => seq![string_event(raw)],
        Node::Object(ms) => seq![Event::StartObject] + member_events(ms) + seq![Event::EndObject],
        Node::Array(es) => seq![Event::StartArray] + element_events(es) + seq![Event::EndArray],
    }
}

/// The events of the members of an object, one after the other.
pub open spec fn member_events(ms: Seq<(Seq<char>, Node)>) -> Seq<Event>
    decreases ms,
{
    if ms.len() == 0 {
        seq![]
    } else {
        seq![key_event(ms[0].0)] + events(ms[0].1) + member_events(ms.drop_first())
    }
}

/// The events of the elements of an array, one after the other.
pub open spec fn element_events(es: Seq<Node>) -> Seq<Event>
    decreases es,
{
    if es.len() == 0 {
        seq![]
    } else {
        events(es[0]) + element_events(es.drop_first())
    }
}

/// The text that bytes `i` to `j` of `b` encode.
pub open spec fn text(b: Seq<u8>, i: int, j: int) -> Seq<char> {
    decode_utf8(b.subrange(i, j))
}

/// The first position from `i` on that does not hold whitespace.
pub open spec fn skip_whitespace(b: Seq<u8>, i: int) -> int
    decreases b.len() - i,
{
    if 0 <= i < b.len() && is_whitespace(b[i]) {
        skip_whitespace(b, i + 1)
    } else {
        i
    }
}

/// The position of the quote that closes a string whose text starts at `i`.
///
/// A backslash takes the byte after it into the text, whatever that byte is.
pub open spec fn string_end(b: Seq<u8>, i: int) -> Option<int>
    decreases b.len() + 1 - i,
{
    if !(0 <= i < b.len()) {
        None
    } else if b[i] == QUOTE {
        Some(i)
    } else if b[i] == BACKSLASH {
        string_end(b, i + 2)
    } else {
        string_end(b, i + 1)
    }
}

/// The first position from `i` on that holds a delimiter, or the end of `b`.
pub open spec fn atom_end(b: Seq<u8>, i: int) -> int
    decreases b.len() - i,
{
    if 0 <= i < b.len() && !is_delimiter(b[i]) {
        atom_end(b, i + 1)
    } else {
        i
    }
}

/// What the atom with text `t` stands for: a literal name or a number.
pub open spec fn atom(t: Seq<char>) -> Option<Node> {
    if t == "true"@ {
        Some(Node::Bool(true))
    } else if t == "false"@ {
        Some(Node::Bool(false))
    } else if t == "null"@ {
        Some(Node::Null)
    } else if number::is_number(encode_utf8(t)) {
        Some(Node::Number(t))
    } else {
        None
    }
}

/// The value that starts at `i`, inside `depth` objects and arrays, and the position
/// behind it.
pub open spec fn value(b: Seq<u8>, i: int, depth: nat) -> Option<(Node, int)>
    decreases b.len() - i, 0nat,
{
    if !(0 <= i < b.len()) {
        None
    } else if b[i] == LEFT_BRACE {
        if depth >= MAX_JSON_DEPTH {
            None
        } else {
            match members(b, i + 1, false, depth + 1) {
                Some((ms, j)) => Some((Node::Object(ms), j)),
                None => None,
            }
        }
    } else if b[i] == LEFT_BRACKET {
        if depth >= MAX_JSON_DEPTH {
            None
        } else {
            match elements(b, i + 1, false, depth + 1) {
                Some((es, j)) => Some((Node::Array(es), j)),
                None => None,
            }
        }
    } else if b[i] == QUOTE {
        match string_end(b, i + 1) {
            Some(j) => Some((Node::String(text(b, i + 1, j)), j + 1)),
            None => None,
        }
    } else {
        let j = atom_end(b, i);
        match atom(text(b, i, j)) {
            Some(n) => Some((n, j)),
            None => None,
        }
    }
}

/// The elements of an array from `i` on up to its closing bracket, and the position
/// behind that bracket.  After a comma an element must follow.
pub open spec fn elements(b: Seq<u8>, i: int, after_comma: bool, depth: nat) -> Option<
    (Seq<Node>, int),
>
    decreases b.len() - i, 1nat,
{
    let j = skip_whitespace(b, i);
    proof {
        lemma_skip_whitespace(b, i);
    }
    if !(0 <= i && j < b.len()) {
        None
    } else if b[j] == RIGHT_BRACKET && !after_comma {
        Some((seq![], j + 1))
    } else {
        match value(b, j, depth) {
            None => None,
            Some((n, k)) => {
                let m = skip_whitespace(b, k);
                if !(i <= m < b.len()) {
                    None
                } else if b[m] == COMMA {
                    match elements(b, m + 1, true, depth) {
                        Some((es, e)) => Some((seq![n] + es, e)),
                        None => None,
                    }
                } else if b[m] == RIGHT_BRACKET {
                    Some((seq![n], m + 1))
                } else {
                    None
                }
            },
        }
    }
}

/// The members of an object from `i` on up to its closing brace, and the position
/// behind that brace.  After a comma a member must follow.
pub open spec fn members(b: Seq<u8>, i: int, after_comma: bool, depth: nat) -> Option<
    (Seq<(Seq<char>, Node)>, int),
>
    decreases b.len() - i, 1nat,
{
    let j = skip_whitespace(b, i);
    proof {
        lemma_skip_whitespace(b, i);
    }
    if !(0 <= i && j < b.len()) {
        None
    } else if b[j] == RIGHT_BRACE && !after_comma {
        Some((seq![], j + 1))
    } else if b[j] != QUOTE {
        None
    } else {
        match string_end(b, j + 1) {
            None => None,
            Some(q) => {
                let c = skip_whitespace(b, q + 1);
                let v = skip_whitespace(b, c + 1);
                proof {
                    lemma_string_end(b, j + 1);
                    lemma_skip_whitespace(b, q + 1);
                    lemma_skip_whitespace(b, c + 1);
                }
                if !(c < b.len() && b[c] == COLON) {
                    None
                } else {
                    match value(b, v, depth) {
                        None => None,
                        Some((n, k)) => {
                            let key = text(b, j + 1, q);
                            let m = skip_whitespace(b, k);
                            if !(i <= m < b.len()) {
                                None
                            } else if b[m] == COMMA {
                                match members(b, m + 1, true, depth) {
                                    Some((ms, e)) => Some((seq![(key, n)] + ms, e)),
                                    None => None,
                                }
                            } else if b[m] == RIGHT_BRACE {
                                Some((seq![(key, n)], m + 1))
                            } else {
                                None
                            }
                        },
                    }
                }
            },
        }
    }
}

/// The one value that the whole of `b` spells, with whitespace around it.
pub open spec fn document(b: Seq<u8>) -> Option<Node> {
    match value(b, skip_whitespace(b, 0), 0) {
        Some((n, j)) => if skip_whitespace(b, j) == b.len() {
            Some(n)
        } else {
            None
        },
        None => None,
    }
}

/// Skipping whitespace does not go back, stays in bounds, and stops at a byte that is
/// not whitespace.
pub proof fn lemma_skip_whitespace(b: Seq<u8>, i: int)
    ensures
        i <= skip_whitespace(b, i),
        i <= b.len() ==> skip_whitespace(b, i) <= b.len(),
        0 <= skip_whitespace(b, i) < b.len() ==> !is_whitespace(b[skip_whitespace(b, i)]),
    decreases b.len() - i,
{
    if 0 <= i < b.len() && is_whitespace(b[i]) {
        lemma_skip_whitespace(b, i + 1);
    }
}

/// The closing quote of a string is a quote at or behind the start of its text.
pub proof fn lemma_string_end(b: Seq<u8>, i: int)
    ensures
        string_end(b, i) matches Some(j) ==> 0 <= i <= j < b.len() && b[j] == QUOTE,
    decreases b.len() + 1 - i,
{
    if 0 <= i < b.len() {
        if b[i] == BACKSLASH {
            lemma_string_end(b, i + 2);
        } else if b[i] != QUOTE {
            lemma_string_end(b, i + 1);
        }
    }
}

/// The end of an atom lies at or behind its start and in bounds.
pub proof fn lemma_atom_end(b: Seq<u8>, i: int)
    ensures
        i <= atom_end(b, i),
        i <= b.len() ==> atom_end(b, i) <= b.len(),
        0 <= atom_end(b, i) < b.len() ==> is_delimiter(b[atom_end(b, i)]),
    decreases b.len() - i,
{
    if 0 <= i < b.len() && !is_delimiter(b[i]) {
        lemma_atom_end(b, i + 1);
    }
}

/// The empty text is no atom.
pub proof fn lemma_no_empty_atom()
    ensures
        atom(decode_utf8(Seq::<u8>::empty())) is None,
{
    reveal_strlit("true");
    reveal_strlit("false");
    reveal_strlit("null");
    let t = decode_utf8(Seq::<u8>::empty());
    assert(t.len() == 0);
    assert(encode_utf8(t) =~= Seq::<u8>::empty());
}

}
