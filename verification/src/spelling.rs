//! What a JSON text is, said by how values are spelled, and the proof that the parser's
//! grammar accepts exactly those texts.
use vstd::prelude::*;
use vstd::utf8::*;

use crate::grammar;
use crate::grammar::{
    Node, BACKSLASH, COLON, COMMA, LEFT_BRACE, LEFT_BRACKET, MAX_JSON_DEPTH, QUOTE, RIGHT_BRACE,
    RIGHT_BRACKET,
};
use crate::number;
use crate::text;

verus! {

/// Which texts count as JSON.
pub enum Dialect {
    /// Those of RFC 8259.
    Strict,
    /// Those that the parser takes: every control character is whitespace between
    /// tokens, and the text of a string is not looked at.
    Lenient,
}

/// Whitespace of RFC 8259: tab, line feed, carriage return and space.
pub open spec fn is_strict_whitespace(c: u8) -> bool {
    c == 0x09 || c == 0x0a || c == 0x0d || c == 0x20
}

/// Every byte of `s` is whitespace.
pub open spec fn is_blank(s: Seq<u8>, dialect: Dialect) -> bool {
    forall|i: int|
        0 <= i < s.len() ==> match dialect {
            Dialect::Strict => is_strict_whitespace(#[trigger] s[i]),
            Dialect::Lenient => grammar::is_whitespace(s[i]),
        }
}

/// A hexadecimal digit.
pub open spec fn is_hex(c: u8) -> bool {
    0x30 <= c <= 0x39 || 0x41 <= c <= 0x46 || 0x61 <= c <= 0x66
}

/// A character that a backslash can stand before in RFC 8259, but for `u`.
pub open spec fn is_short_escape(c: u8) -> bool {
    c == 0x22 || c == 0x5c || c == 0x2f || c == 0x62 || c == 0x66 || c == 0x6e || c == 0x72 || c
        == 0x74
}

/// `s` can stand between the quotes of a string.
///
/// In either dialect a quote stands behind a backslash.  RFC 8259 also wants the escape
/// sequences to be known ones, and no control characters.
pub open spec fn is_string_body(s: Seq<u8>, dialect: Dialect) -> bool
    decreases s.len(),
{
    if s.len() == 0 {
        true
    } else if s[0] == QUOTE {
        false
    } else if s[0] != BACKSLASH {
        (dialect is Strict ==> s[0] >= 0x20) && is_string_body(s.skip(1), dialect)
    } else {
        match dialect {
            Dialect::Lenient => s.len() >= 2 && is_string_body(s.skip(2), dialect),
            Dialect::Strict => if s.len() >= 2 && is_short_escape(s[1]) {
                is_string_body(s.skip(2), dialect)
            } else {
                &&& s.len() >= 6
                &&& s[1] == 0x75
                &&& is_hex(s[2]) && is_hex(s[3]) && is_hex(s[4]) && is_hex(s[5])
                &&& is_string_body(s.skip(6), dialect)
            },
        }
    }
}

/// `s` spells a string with the raw text `raw`.
pub open spec fn spells_string(raw: Seq<char>, s: Seq<u8>, dialect: Dialect) -> bool {
    s == seq![QUOTE] + encode_utf8(raw) + seq![QUOTE] && is_string_body(encode_utf8(raw), dialect)
}

/// `s` spells the value `n`, without whitespace around it.
pub open spec fn spells(n: Node, s: Seq<u8>, dialect: Dialect) -> bool
    decreases n, 0nat,
{
    match n {
        Node::Null => s == encode_utf8("null"@),
        Node::Bool(v) => s == encode_utf8(
            if v {
                "true"@
            } else {
                "false"@
            },
        ),
        Node::Number(t) => s == encode_utf8(t) && number::is_number(s),
        Node::String(raw) => spells_string(raw, s, dialect),
        Node::Array(es) => {
            let inner = s.subrange(1, s.len() - 1);
            &&& s.len() >= 2
            &&& s[0] == LEFT_BRACKET
            &&& s.last() == RIGHT_BRACKET
            &&& if es.len() == 0 {
                is_blank(inner, dialect)
            } else {
                spells_elements(es, inner, dialect)
            }
        },
        Node::Object(ms) => {
            let inner = s.subrange(1, s.len() - 1);
            &&& s.len() >= 2
            &&& s[0] == LEFT_BRACE
            &&& s.last() == RIGHT_BRACE
            &&& if ms.len() == 0 {
                is_blank(inner, dialect)
            } else {
                spells_members(ms, inner, dialect)
            }
        },
    }
}

/// `s` spells the value `n`, with whitespace around it.
pub open spec fn spells_padded(n: Node, s: Seq<u8>, dialect: Dialect) -> bool
    decreases n, 1nat,
{
    exists|i: int, j: int|
        {
            &&& 0 <= i <= j <= s.len()
            &&& is_blank(s.subrange(0, i), dialect)
            &&& spells(n, #[trigger] s.subrange(i, j), dialect)
            &&& is_blank(s.subrange(j, s.len() as int), dialect)
        }
}

/// `s` spells the elements `es`, of which there is at least one, with commas between them.
pub open spec fn spells_elements(es: Seq<Node>, s: Seq<u8>, dialect: Dialect) -> bool
    decreases es, 0nat,
{
    if es.len() == 0 {
        false
    } else if es.len() == 1 {
        spells_padded(es[0], s, dialect)
    } else {
        exists|k: int|
            {
                &&& 0 <= k < s.len()
                &&& s[k] == COMMA
                &&& spells_padded(es[0], #[trigger] s.subrange(0, k), dialect)
                &&& spells_elements(
                    es.drop_first(),
                    s.subrange(k + 1, s.len() as int),
                    dialect,
                )
            }
    }
}

/// `s` spells a member: a key, a colon and a value, with whitespace around each.
pub open spec fn spells_member(m: (Seq<char>, Node), s: Seq<u8>, dialect: Dialect) -> bool
    decreases m, 0nat,
{
    exists|i: int, j: int, c: int|
        {
            &&& 0 <= i <= j <= c < s.len()
            &&& is_blank(s.subrange(0, i), dialect)
            &&& spells_string(m.0, #[trigger] s.subrange(i, j), dialect)
            &&& is_blank(#[trigger] s.subrange(j, c), dialect)
            &&& s[c] == COLON
            &&& spells_padded(m.1, s.subrange(c + 1, s.len() as int), dialect)
        }
}

/// `s` spells the members `ms`, of which there is at least one, with commas between them.
pub open spec fn spells_members(ms: Seq<(Seq<char>, Node)>, s: Seq<u8>, dialect: Dialect) -> bool
    decreases ms, 0nat,
{
    if ms.len() == 0 {
        false
    } else if ms.len() == 1 {
        spells_member(ms[0], s, dialect)
    } else {
        exists|k: int|
            {
                &&& 0 <= k < s.len()
                &&& s[k] == COMMA
                &&& spells_member(ms[0], #[trigger] s.subrange(0, k), dialect)
                &&& spells_members(
                    ms.drop_first(),
                    s.subrange(k + 1, s.len() as int),
                    dialect,
                )
            }
    }
}

/// How many objects and arrays stand one in the other in `n`, at most.
pub open spec fn nesting(n: Node) -> nat
    decreases n,
{
    match n {
        Node::Array(es) => 1 + nesting_elements(es),
        Node::Object(ms) => 1 + nesting_members(ms),
        _ => 0,
    }
}

/// The greatest nesting of an element.
pub open spec fn nesting_elements(es: Seq<Node>) -> nat
    decreases es,
{
    if es.len() == 0 {
        0
    } else if nesting(es[0]) > nesting_elements(es.drop_first()) {
        nesting(es[0])
    } else {
        nesting_elements(es.drop_first())
    }
}

/// The greatest nesting of the value of a member.
pub open spec fn nesting_members(ms: Seq<(Seq<char>, Node)>) -> nat
    decreases ms,
{
    if ms.len() == 0 {
        0
    } else if nesting(ms[0].1) > nesting_members(ms.drop_first()) {
        nesting(ms[0].1)
    } else {
        nesting_members(ms.drop_first())
    }
}

/// Blank text is skipped.
proof fn lemma_skip_blank(b: Seq<u8>, i: int, j: int)
    requires
        0 <= i <= j <= b.len(),
        is_blank(b.subrange(i, j), Dialect::Lenient),
    ensures
        grammar::skip_whitespace(b, i) == grammar::skip_whitespace(b, j),
        j < b.len() && !grammar::is_whitespace(b[j]) ==> grammar::skip_whitespace(b, i) == j,
        j == b.len() ==> grammar::skip_whitespace(b, i) == j,
    decreases j - i,
{
    if i < j {
        let s = b.subrange(i, j);
        assert(grammar::is_whitespace(s[0]));
        assert forall|k: int| 0 <= k < j - i - 1 implies grammar::is_whitespace(
            #[trigger] b.subrange(i + 1, j)[k],
        ) by {
            assert(s[k + 1] == b[i + 1 + k]);
        }
        lemma_skip_blank(b, i + 1, j);
    }
}

/// What is skipped is blank.
proof fn lemma_skipped_blank(b: Seq<u8>, i: int)
    requires
        0 <= i <= b.len(),
    ensures
        is_blank(b.subrange(i, grammar::skip_whitespace(b, i)), Dialect::Lenient),
    decreases b.len() - i,
{
    grammar::lemma_skip_whitespace(b, i);
    let j = grammar::skip_whitespace(b, i);
    if i < b.len() && grammar::is_whitespace(b[i]) {
        lemma_skipped_blank(b, i + 1);
        let s = b.subrange(i, j);
        assert forall|k: int| 0 <= k < s.len() implies grammar::is_whitespace(#[trigger] s[k]) by {
            if k > 0 {
                assert(s[k] == b.subrange(i + 1, j)[k - 1]);
            }
        }
    }
}

/// A text that can stand in a string ends at the quote behind it.
proof fn lemma_body_end(b: Seq<u8>, i: int, j: int)
    requires
        0 <= i <= j < b.len(),
        is_string_body(b.subrange(i, j), Dialect::Lenient),
        b[j] == QUOTE,
    ensures
        grammar::string_end(b, i) == Some(j),
    decreases j - i,
{
    let s = b.subrange(i, j);
    if i < j {
        assert(s[0] == b[i]);
        if b[i] == BACKSLASH {
            assert(s.skip(2) =~= b.subrange(i + 2, j));
            lemma_body_end(b, i + 2, j);
        } else {
            assert(s.skip(1) =~= b.subrange(i + 1, j));
            lemma_body_end(b, i + 1, j);
        }
    }
}

/// What ends at a closing quote can stand in a string.
proof fn lemma_end_body(b: Seq<u8>, i: int, j: int)
    requires
        grammar::string_end(b, i) == Some(j),
    ensures
        0 <= i <= j < b.len(),
        b[j] == QUOTE,
        is_string_body(b.subrange(i, j), Dialect::Lenient),
    decreases b.len() + 1 - i,
{
    grammar::lemma_string_end(b, i);
    let s = b.subrange(i, j);
    if i < j {
        assert(s[0] == b[i]);
        if b[i] == BACKSLASH {
            lemma_end_body(b, i + 2, j);
            assert(s.skip(2) =~= b.subrange(i + 2, j));
        } else {
            lemma_end_body(b, i + 1, j);
            assert(s.skip(1) =~= b.subrange(i + 1, j));
        }
    }
}

/// The encoding of the literal names.
pub proof fn lemma_names()
    ensures
        encode_utf8("null"@) == seq![0x6eu8, 0x75, 0x6c, 0x6c],
        encode_utf8("true"@) == seq![0x74u8, 0x72, 0x75, 0x65],
        encode_utf8("false"@) == seq![0x66u8, 0x61, 0x6c, 0x73, 0x65],
{
    reveal_strlit("null");
    reveal_strlit("true");
    reveal_strlit("false");
    is_ascii_chars_encode_utf8("null"@);
    is_ascii_chars_encode_utf8("true"@);
    is_ascii_chars_encode_utf8("false"@);
    assert(encode_utf8("null"@) =~= seq![0x6eu8, 0x75, 0x6c, 0x6c]) by {
        assert("null"@[0] == 'n' && "null"@[1] == 'u' && "null"@[2] == 'l' && "null"@[3] == 'l');
    }
    assert(encode_utf8("true"@) =~= seq![0x74u8, 0x72, 0x75, 0x65]) by {
        assert("true"@[0] == 't' && "true"@[1] == 'r' && "true"@[2] == 'u' && "true"@[3] == 'e');
    }
    assert(encode_utf8("false"@) =~= seq![0x66u8, 0x61, 0x6c, 0x73, 0x65]) by {
        assert("false"@[0] == 'f' && "false"@[1] == 'a' && "false"@[2] == 'l' && "false"@[3] == 's'
            && "false"@[4] == 'e');
    }
}

/// A spelled value starts with a byte that is neither whitespace nor what stands between
/// or behind values.
pub proof fn lemma_first_byte(n: Node, s: Seq<u8>)
    requires
        spells(n, s, Dialect::Lenient),
    ensures
        s.len() > 0,
        !grammar::is_delimiter(s[0]),
        s[0] != COLON,
{
    lemma_names();
    if let Node::Number(t) = n {
        number::lemma_number_start(s);
    }
}

/// A spelled atom runs to the next delimiter and stands for its value.
proof fn lemma_complete_atom(b: Seq<u8>, i: int, j: int, n: Node)
    requires
        0 <= i <= j <= b.len(),
        spells(n, b.subrange(i, j), Dialect::Lenient),
        n is Null || n is Bool || n is Number,
        j == b.len() || grammar::is_delimiter(b[j]),
    ensures
        i < j,
        b[i] != LEFT_BRACE,
        b[i] != LEFT_BRACKET,
        b[i] != QUOTE,
        grammar::atom_end(b, i) == j,
        grammar::atom(grammar::text(b, i, j)) == Some(n),
{
    let s = b.subrange(i, j);
    lemma_names();
    lemma_first_byte(n, s);
    assert(s[0] == b[i]);
    encode_utf8_decode_utf8("null"@);
    encode_utf8_decode_utf8("true"@);
    encode_utf8_decode_utf8("false"@);
    if let Node::Number(t) = n {
        encode_utf8_decode_utf8(t);
        number::lemma_number_start(s);
        number::lemma_number_bytes(s);
    }
    assert forall|k: int| i <= k < j implies !grammar::is_delimiter(#[trigger] b[k]) by {
        assert(s[k - i] == b[k]);
    }
    lemma_atom_run(b, i, j);
    if n is Bool || n is Null {
        assert("true"@ != "false"@) by {
            reveal_strlit("true");
            reveal_strlit("false");
        }
        assert("true"@ != "null"@ && "false"@ != "null"@) by {
            reveal_strlit("true");
            reveal_strlit("false");
            reveal_strlit("null");
            assert("true"@[0] == 't');
            assert("null"@[0] == 'n');
        }
    }
}

/// No delimiter up to `j`, and one or the end there.
proof fn lemma_atom_run(b: Seq<u8>, i: int, j: int)
    requires
        0 <= i <= j <= b.len(),
        forall|k: int| i <= k < j ==> !grammar::is_delimiter(#[trigger] b[k]),
        j == b.len() || grammar::is_delimiter(b[j]),
    ensures
        grammar::atom_end(b, i) == j,
    decreases j - i,
{
    if i < j {
        lemma_atom_run(b, i + 1, j);
    }
}

/// A spelled string ends at its last byte and has its text.
proof fn lemma_complete_string(b: Seq<u8>, i: int, j: int, raw: Seq<char>)
    requires
        0 <= i <= j <= b.len(),
        spells_string(raw, b.subrange(i, j), Dialect::Lenient),
    ensures
        i + 2 <= j,
        b[i] == QUOTE,
        grammar::string_end(b, i + 1) == Some(j - 1),
        grammar::text(b, i + 1, j - 1) == raw,
{
    let s = b.subrange(i, j);
    let e = encode_utf8(raw);
    assert(s.len() == e.len() + 2);
    assert(s[0] == b[i]);
    assert(s[s.len() - 1] == b[j - 1]);
    assert(b.subrange(i + 1, j - 1) =~= e) by {
        assert forall|k: int| 0 <= k < e.len() implies b.subrange(i + 1, j - 1)[k] == e[k] by {
            assert(s[k + 1] == e[k]);
        }
    }
    lemma_body_end(b, i + 1, j - 1);
    encode_utf8_decode_utf8(raw);
}

/// The grammar reads a spelled value as that value, unless it nests too deep.
proof fn lemma_complete(b: Seq<u8>, i: int, j: int, n: Node, depth: nat)
    requires
        0 <= i <= j <= b.len(),
        spells(n, b.subrange(i, j), Dialect::Lenient),
        depth <= MAX_JSON_DEPTH,
        j == b.len() || grammar::is_delimiter(b[j]),
    ensures
        grammar::value(b, i, depth) == (if depth + nesting(n) <= MAX_JSON_DEPTH {
            Some((n, j))
        } else {
            None
        }),
    decreases n, 0nat,
{
    let s = b.subrange(i, j);
    match n {
        Node::Array(es) => {
            let inner = s.subrange(1, s.len() - 1);
            assert(inner =~= b.subrange(i + 1, j - 1));
            assert(b[i] == s[0]);
            assert(b[j - 1] == s.last());
            if es.len() == 0 {
                lemma_skip_blank(b, i + 1, j - 1);
                assert(es =~= seq![]);
            } else if depth < MAX_JSON_DEPTH {
                lemma_complete_elements(b, i + 1, j - 1, es, depth + 1, false);
            }
        },
        Node::Object(ms) => {
            let inner = s.subrange(1, s.len() - 1);
            assert(inner =~= b.subrange(i + 1, j - 1));
            assert(b[i] == s[0]);
            assert(b[j - 1] == s.last());
            if ms.len() == 0 {
                lemma_skip_blank(b, i + 1, j - 1);
                assert(ms =~= seq![]);
            } else if depth < MAX_JSON_DEPTH {
                lemma_complete_members(b, i + 1, j - 1, ms, depth + 1, false);
            }
        },
        Node::String(raw) => {
            lemma_complete_string(b, i, j, raw);
        },
        _ => {
            lemma_complete_atom(b, i, j, n);
        },
    }
}

/// The grammar reads a spelled value with whitespace around it as that value.
proof fn lemma_complete_padded(b: Seq<u8>, i: int, j: int, n: Node, depth: nat) -> (k: int)
    requires
        0 <= i <= j <= b.len(),
        spells_padded(n, b.subrange(i, j), Dialect::Lenient),
        depth <= MAX_JSON_DEPTH,
        j == b.len() || (grammar::is_delimiter(b[j]) && !grammar::is_whitespace(b[j])),
    ensures
        ({
            let v = grammar::skip_whitespace(b, i);
            &&& i <= v < k <= j
            &&& !grammar::is_delimiter(b[v])
            &&& grammar::value(b, v, depth) == (if depth + nesting(n) <= MAX_JSON_DEPTH {
                Some((n, k))
            } else {
                None
            })
            &&& grammar::skip_whitespace(b, k) == j
        }),
    decreases n, 1nat,
{
    let s = b.subrange(i, j);
    let (x, y) = choose|x: int, y: int|
        {
            &&& 0 <= x <= y <= s.len()
            &&& is_blank(s.subrange(0, x), Dialect::Lenient)
            &&& spells(n, #[trigger] s.subrange(x, y), Dialect::Lenient)
            &&& is_blank(s.subrange(y, s.len() as int), Dialect::Lenient)
        };
    assert(s.subrange(0, x) =~= b.subrange(i, i + x));
    assert(s.subrange(x, y) =~= b.subrange(i + x, i + y));
    assert(s.subrange(y, s.len() as int) =~= b.subrange(i + y, j));
    lemma_first_byte(n, s.subrange(x, y));
    assert(s.subrange(x, y)[0] == b[i + x]);
    lemma_skip_blank(b, i, i + x);
    lemma_skip_blank(b, i + y, j);
    if y < s.len() {
        assert(grammar::is_whitespace(s.subrange(y, s.len() as int)[0]));
        assert(s.subrange(y, s.len() as int)[0] == b[i + y]);
    }
    lemma_complete(b, i + x, i + y, n, depth);
    i + y
}

/// The grammar reads spelled elements as those elements.
proof fn lemma_complete_elements(
    b: Seq<u8>,
    i: int,
    e: int,
    es: Seq<Node>,
    depth: nat,
    after_comma: bool,
)
    requires
        0 <= i <= e < b.len(),
        spells_elements(es, b.subrange(i, e), Dialect::Lenient),
        depth <= MAX_JSON_DEPTH,
        b[e] == RIGHT_BRACKET,
    ensures
        grammar::elements(b, i, after_comma, depth) == (if depth + nesting_elements(es)
            <= MAX_JSON_DEPTH {
            Some((es, e + 1))
        } else {
            None
        }),
    decreases es, 0nat,
{
    let s = b.subrange(i, e);
    if es.len() == 1 {
        let k = lemma_complete_padded(b, i, e, es[0], depth);
        assert(es =~= seq![es[0]]);
        assert(es.drop_first().len() == 0);
    } else {
        let c = choose|c: int|
            {
                &&& 0 <= c < s.len()
                &&& s[c] == COMMA
                &&& spells_padded(es[0], #[trigger] s.subrange(0, c), Dialect::Lenient)
                &&& spells_elements(
                    es.drop_first(),
                    s.subrange(c + 1, s.len() as int),
                    Dialect::Lenient,
                )
            };
        assert(s.subrange(0, c) =~= b.subrange(i, i + c));
        assert(s.subrange(c + 1, s.len() as int) =~= b.subrange(i + c + 1, e));
        let k = lemma_complete_padded(b, i, i + c, es[0], depth);
        lemma_complete_elements(b, i + c + 1, e, es.drop_first(), depth, true);
        assert(es =~= seq![es[0]] + es.drop_first());
    }
}

/// The grammar reads a spelled member up to its value.
proof fn lemma_complete_member(b: Seq<u8>, i: int, j: int, m: (Seq<char>, Node), depth: nat) -> (r: (
    int,
    int,
    int,
))
    requires
        0 <= i <= j < b.len(),
        spells_member(m, b.subrange(i, j), Dialect::Lenient),
        depth <= MAX_JSON_DEPTH,
        grammar::is_delimiter(b[j]) && !grammar::is_whitespace(b[j]),
    ensures
        ({
            let (q, c, k) = r;
            let p = grammar::skip_whitespace(b, i);
            let v = grammar::skip_whitespace(b, c + 1);
            &&& i <= p < q < c < v < k <= j
            &&& b[p] == QUOTE
            &&& grammar::string_end(b, p + 1) == Some(q)
            &&& grammar::text(b, p + 1, q) == m.0
            &&& grammar::skip_whitespace(b, q + 1) == c
            &&& b[c] == COLON
            &&& grammar::value(b, v, depth) == (if depth + nesting(m.1) <= MAX_JSON_DEPTH {
                Some((m.1, k))
            } else {
                None
            })
            &&& grammar::skip_whitespace(b, k) == j
        }),
    decreases m, 0nat,
{
    let s = b.subrange(i, j);
    let (x, y, c) = choose|x: int, y: int, c: int|
        {
            &&& 0 <= x <= y <= c < s.len()
            &&& is_blank(s.subrange(0, x), Dialect::Lenient)
            &&& spells_string(m.0, #[trigger] s.subrange(x, y), Dialect::Lenient)
            &&& is_blank(#[trigger] s.subrange(y, c), Dialect::Lenient)
            &&& s[c] == COLON
            &&& spells_padded(m.1, s.subrange(c + 1, s.len() as int), Dialect::Lenient)
        };
    assert(s.subrange(0, x) =~= b.subrange(i, i + x));
    assert(s.subrange(x, y) =~= b.subrange(i + x, i + y));
    assert(s.subrange(y, c) =~= b.subrange(i + y, i + c));
    assert(s.subrange(c + 1, s.len() as int) =~= b.subrange(i + c + 1, j));
    lemma_complete_string(b, i + x, i + y, m.0);
    lemma_skip_blank(b, i, i + x);
    lemma_skip_blank(b, i + y, i + c);
    let k = lemma_complete_padded(b, i + c + 1, j, m.1, depth);
    (i + y - 1, i + c, k)
}

/// The grammar reads spelled members as those members.
proof fn lemma_complete_members(
    b: Seq<u8>,
    i: int,
    e: int,
    ms: Seq<(Seq<char>, Node)>,
    depth: nat,
    after_comma: bool,
)
    requires
        0 <= i <= e < b.len(),
        spells_members(ms, b.subrange(i, e), Dialect::Lenient),
        depth <= MAX_JSON_DEPTH,
        b[e] == RIGHT_BRACE,
    ensures
        grammar::members(b, i, after_comma, depth) == (if depth + nesting_members(ms)
            <= MAX_JSON_DEPTH {
            Some((ms, e + 1))
        } else {
            None
        }),
    decreases ms, 0nat,
{
    let s = b.subrange(i, e);
    if ms.len() == 1 {
        let r = lemma_complete_member(b, i, e, ms[0], depth);
        assert(ms =~= seq![ms[0]]);
        assert(ms[0] == (ms[0].0, ms[0].1));
        assert(ms.drop_first().len() == 0);
    } else {
        let c = choose|c: int|
            {
                &&& 0 <= c < s.len()
                &&& s[c] == COMMA
                &&& spells_member(ms[0], #[trigger] s.subrange(0, c), Dialect::Lenient)
                &&& spells_members(
                    ms.drop_first(),
                    s.subrange(c + 1, s.len() as int),
                    Dialect::Lenient,
                )
            };
        assert(s.subrange(0, c) =~= b.subrange(i, i + c));
        assert(s.subrange(c + 1, s.len() as int) =~= b.subrange(i + c + 1, e));
        let r = lemma_complete_member(b, i, i + c, ms[0], depth);
        lemma_complete_members(b, i + c + 1, e, ms.drop_first(), depth, true);
        assert(ms[0] == (ms[0].0, ms[0].1));
        assert(ms =~= seq![ms[0]] + ms.drop_first());
    }
}

/// Behind whitespace there is a character boundary.
proof fn lemma_skip_boundary(b: Seq<u8>, i: int)
    requires
        valid_utf8(b),
        0 <= i <= b.len(),
        is_char_boundary(b, i),
    ensures
        is_char_boundary(b, grammar::skip_whitespace(b, i)),
    decreases b.len() - i,
{
    if i < b.len() && grammar::is_whitespace(b[i]) {
        text::lemma_ascii_boundary(b, i);
        lemma_skip_boundary(b, i + 1);
    }
}

/// What the grammar reads as an atom spells it.
proof fn lemma_sound_atom(b: Seq<u8>, i: int, n: Node)
    requires
        valid_utf8(b),
        0 <= i < b.len(),
        is_char_boundary(b, i),
        grammar::atom(grammar::text(b, i, grammar::atom_end(b, i))) == Some(n),
    ensures
        ({
            let j = grammar::atom_end(b, i);
            &&& i < j <= b.len()
            &&& spells(n, b.subrange(i, j), Dialect::Lenient)
            &&& nesting(n) == 0
            &&& is_char_boundary(b, j)
        }),
{
    let j = grammar::atom_end(b, i);
    grammar::lemma_atom_end(b, i);
    if j < b.len() {
        text::lemma_ascii_boundary(b, j);
    } else {
        is_char_boundary_start_end_of_seq(b);
    }
    text::lemma_valid_slice(b, i, j);
    lemma_first_byte(n, b.subrange(i, j));
}

/// What the grammar reads as a value spells it.
proof fn lemma_sound(b: Seq<u8>, i: int, depth: nat)
    requires
        valid_utf8(b),
        0 <= i <= b.len(),
        is_char_boundary(b, i),
        depth <= MAX_JSON_DEPTH,
    ensures
        grammar::value(b, i, depth) matches Some((n, j)) ==> {
            &&& i < j <= b.len()
            &&& spells(n, b.subrange(i, j), Dialect::Lenient)
            &&& depth + nesting(n) <= MAX_JSON_DEPTH
            &&& is_char_boundary(b, j)
        },
    decreases b.len() - i, 0nat,
{
    if let Some((n, j)) = grammar::value(b, i, depth) {
        if b[i] < 0x80 {
            text::lemma_ascii_boundary(b, i);
        }
        let s = b.subrange(i, j);
        if b[i] == LEFT_BRACE {
            lemma_sound_members(b, i + 1, false, depth + 1);
            text::lemma_ascii_boundary(b, j - 1);
            assert(s.subrange(1, s.len() - 1) =~= b.subrange(i + 1, j - 1));
        } else if b[i] == LEFT_BRACKET {
            lemma_sound_elements(b, i + 1, false, depth + 1);
            text::lemma_ascii_boundary(b, j - 1);
            assert(s.subrange(1, s.len() - 1) =~= b.subrange(i + 1, j - 1));
        } else if b[i] == QUOTE {
            lemma_sound_string(b, i);
        } else {
            lemma_sound_atom(b, i, n);
        }
    }
}

/// What the grammar reads as a string spells it.
proof fn lemma_sound_string(b: Seq<u8>, i: int)
    requires
        valid_utf8(b),
        0 <= i < b.len(),
        b[i] == QUOTE,
    ensures
        grammar::string_end(b, i + 1) matches Some(q) ==> {
            &&& i < q < b.len()
            &&& spells_string(
                grammar::text(b, i + 1, q),
                b.subrange(i, q + 1),
                Dialect::Lenient,
            )
            &&& is_char_boundary(b, q + 1)
        },
{
    if let Some(q) = grammar::string_end(b, i + 1) {
        lemma_end_body(b, i + 1, q);
        text::lemma_ascii_boundary(b, i);
        text::lemma_ascii_boundary(b, q);
        text::lemma_valid_slice(b, i + 1, q);
        let e = b.subrange(i + 1, q);
        assert(b.subrange(i, q + 1) =~= seq![QUOTE] + e + seq![QUOTE]);
    }
}

/// A value with what was skipped around it is spelled with whitespace around it.
proof fn lemma_padded(b: Seq<u8>, i: int, v: int, k: int, j: int, n: Node)
    requires
        0 <= i <= v <= k <= j <= b.len(),
        is_blank(b.subrange(i, v), Dialect::Lenient),
        spells(n, b.subrange(v, k), Dialect::Lenient),
        is_blank(b.subrange(k, j), Dialect::Lenient),
    ensures
        spells_padded(n, b.subrange(i, j), Dialect::Lenient),
{
    let s = b.subrange(i, j);
    assert(s.subrange(0, v - i) =~= b.subrange(i, v));
    assert(s.subrange(v - i, k - i) =~= b.subrange(v, k));
    assert(s.subrange(k - i, s.len() as int) =~= b.subrange(k, j));
}

/// What the grammar reads as elements spells them.
proof fn lemma_sound_elements(b: Seq<u8>, i: int, after_comma: bool, depth: nat)
    requires
        valid_utf8(b),
        0 <= i <= b.len(),
        is_char_boundary(b, i),
        depth <= MAX_JSON_DEPTH,
    ensures
        grammar::elements(b, i, after_comma, depth) matches Some((es, e)) ==> {
            &&& i < e <= b.len()
            &&& b[e - 1] == RIGHT_BRACKET
            &&& depth + nesting_elements(es) <= MAX_JSON_DEPTH
            &&& if es.len() == 0 {
                !after_comma && is_blank(b.subrange(i, e - 1), Dialect::Lenient)
            } else {
                spells_elements(es, b.subrange(i, e - 1), Dialect::Lenient)
            }
        },
    decreases b.len() - i, 1nat,
{
    if let Some((es, e)) = grammar::elements(b, i, after_comma, depth) {
        let v = grammar::skip_whitespace(b, i);
        grammar::lemma_skip_whitespace(b, i);
        lemma_skip_boundary(b, i);
        lemma_skipped_blank(b, i);
        if !(b[v] == RIGHT_BRACKET && !after_comma) {
            lemma_sound(b, v, depth);
            let (n, k) = grammar::value(b, v, depth)->0;
            let m = grammar::skip_whitespace(b, k);
            grammar::lemma_skip_whitespace(b, k);
            lemma_skipped_blank(b, k);
            lemma_padded(b, i, v, k, m, n);
            text::lemma_ascii_boundary(b, m);
            if b[m] == COMMA {
                lemma_sound_elements(b, m + 1, true, depth);
                let (rest, x) = grammar::elements(b, m + 1, true, depth)->0;
                assert(es.drop_first() =~= rest);
                let s = b.subrange(i, e - 1);
                let c = m - i;
                assert(s[c] == COMMA);
                assert(s.subrange(0, c) =~= b.subrange(i, m));
                assert(s.subrange(c + 1, s.len() as int) =~= b.subrange(m + 1, e - 1));
            } else {
                assert(nesting_elements(es.drop_first()) == 0) by {
                    assert(es.drop_first().len() == 0);
                }
            }
        }
    }
}

/// What the grammar reads as members spells them.
proof fn lemma_sound_members(b: Seq<u8>, i: int, after_comma: bool, depth: nat)
    requires
        valid_utf8(b),
        0 <= i <= b.len(),
        is_char_boundary(b, i),
        depth <= MAX_JSON_DEPTH,
    ensures
        grammar::members(b, i, after_comma, depth) matches Some((ms, e)) ==> {
            &&& i < e <= b.len()
            &&& b[e - 1] == RIGHT_BRACE
            &&& depth + nesting_members(ms) <= MAX_JSON_DEPTH
            &&& if ms.len() == 0 {
                !after_comma && is_blank(b.subrange(i, e - 1), Dialect::Lenient)
            } else {
                spells_members(ms, b.subrange(i, e - 1), Dialect::Lenient)
            }
        },
    decreases b.len() - i, 1nat,
{
    if let Some((ms, e)) = grammar::members(b, i, after_comma, depth) {
        let p = grammar::skip_whitespace(b, i);
        grammar::lemma_skip_whitespace(b, i);
        lemma_skipped_blank(b, i);
        if !(b[p] == RIGHT_BRACE && !after_comma) {
            lemma_sound_string(b, p);
            let q = grammar::string_end(b, p + 1)->0;
            let key = grammar::text(b, p + 1, q);
            let c = grammar::skip_whitespace(b, q + 1);
            grammar::lemma_skip_whitespace(b, q + 1);
            lemma_skipped_blank(b, q + 1);
            text::lemma_ascii_boundary(b, c);
            let v = grammar::skip_whitespace(b, c + 1);
            grammar::lemma_skip_whitespace(b, c + 1);
            lemma_skip_boundary(b, c + 1);
            lemma_skipped_blank(b, c + 1);
            lemma_sound(b, v, depth);
            let (n, k) = grammar::value(b, v, depth)->0;
            let m = grammar::skip_whitespace(b, k);
            grammar::lemma_skip_whitespace(b, k);
            lemma_skipped_blank(b, k);
            lemma_padded(b, c + 1, v, k, m, n);
            let t = b.subrange(i, m);
            assert(spells_member((key, n), t, Dialect::Lenient)) by {
                assert(t.subrange(0, p - i) =~= b.subrange(i, p));
                assert(t.subrange(p - i, q + 1 - i) =~= b.subrange(p, q + 1));
                assert(t.subrange(q + 1 - i, c - i) =~= b.subrange(q + 1, c));
                assert(t[c - i] == COLON);
                assert(t.subrange(c - i + 1, t.len() as int) =~= b.subrange(c + 1, m));
            }
            text::lemma_ascii_boundary(b, m);
            if b[m] == COMMA {
                lemma_sound_members(b, m + 1, true, depth);
                let (rest, x) = grammar::members(b, m + 1, true, depth)->0;
                assert(ms.drop_first() =~= rest);
                let s = b.subrange(i, e - 1);
                let d = m - i;
                assert(s[d] == COMMA);
                assert(s.subrange(0, d) =~= t);
                assert(s.subrange(d + 1, s.len() as int) =~= b.subrange(m + 1, e - 1));
            } else {
                assert(nesting_members(ms.drop_first()) == 0) by {
                    assert(ms.drop_first().len() == 0);
                }
            }
        }
    }
}

/// The grammar accepts exactly the texts that spell a value with whitespace around it
/// and do not nest too deep, and reads them as that value.
pub proof fn law_document(b: Seq<u8>, n: Node)
    requires
        valid_utf8(b),
    ensures
        grammar::document(b) == Some(n) <==> spells_padded(n, b, Dialect::Lenient) && nesting(n)
            <= MAX_JSON_DEPTH,
{
    let len = b.len() as int;
    assert(b.subrange(0, len) =~= b);
    if spells_padded(n, b, Dialect::Lenient) && nesting(n) <= MAX_JSON_DEPTH {
        let k = lemma_complete_padded(b, 0, len, n, 0);
    }
    if grammar::document(b) == Some(n) {
        let v = grammar::skip_whitespace(b, 0);
        grammar::lemma_skip_whitespace(b, 0);
        is_char_boundary_start_end_of_seq(b);
        lemma_skip_boundary(b, 0);
        lemma_skipped_blank(b, 0);
        lemma_sound(b, v, 0);
        let (m, k) = grammar::value(b, v, 0)->0;
        lemma_skipped_blank(b, k);
        lemma_padded(b, 0, v, k, len, n);
    }
}

/// A string body of RFC 8259 is one for the parser.
proof fn lemma_strict_body(s: Seq<u8>)
    requires
        is_string_body(s, Dialect::Strict),
    ensures
        is_string_body(s, Dialect::Lenient),
    decreases s.len(),
{
    if s.len() > 0 {
        if s[0] != BACKSLASH {
            lemma_strict_body(s.skip(1));
        } else if is_short_escape(s[1]) {
            lemma_strict_body(s.skip(2));
        } else {
            lemma_strict_body(s.skip(6));
            reveal_with_fuel(is_string_body, 6);
            let t = s.skip(2);
            assert(t.skip(1) =~= s.skip(3));
            assert(s.skip(3).skip(1) =~= s.skip(4));
            assert(s.skip(4).skip(1) =~= s.skip(5));
            assert(s.skip(5).skip(1) =~= s.skip(6));
            assert(t[0] == s[2] && s.skip(3)[0] == s[3] && s.skip(4)[0] == s[4] && s.skip(5)[0]
                == s[5]);
        }
    }
}

proof fn lemma_strict_blank(s: Seq<u8>)
    requires
        is_blank(s, Dialect::Strict),
    ensures
        is_blank(s, Dialect::Lenient),
{
    assert forall|i: int| 0 <= i < s.len() implies grammar::is_whitespace(#[trigger] s[i]) by {
        assert(is_strict_whitespace(s[i]));
    }
}

/// What spells a value in RFC 8259 spells it for the parser.
proof fn lemma_strict(n: Node, s: Seq<u8>)
    requires
        spells(n, s, Dialect::Strict),
    ensures
        spells(n, s, Dialect::Lenient),
    decreases n, 0nat,
{
    match n {
        Node::String(raw) => {
            lemma_strict_body(encode_utf8(raw));
        },
        Node::Array(es) => {
            let inner = s.subrange(1, s.len() - 1);
            if es.len() == 0 {
                lemma_strict_blank(inner);
            } else {
                lemma_strict_elements(es, inner);
            }
        },
        Node::Object(ms) => {
            let inner = s.subrange(1, s.len() - 1);
            if ms.len() == 0 {
                lemma_strict_blank(inner);
            } else {
                lemma_strict_members(ms, inner);
            }
        },
        _ => {},
    }
}

proof fn lemma_strict_padded(n: Node, s: Seq<u8>)
    requires
        spells_padded(n, s, Dialect::Strict),
    ensures
        spells_padded(n, s, Dialect::Lenient),
    decreases n, 1nat,
{
    let (i, j) = choose|i: int, j: int|
        {
            &&& 0 <= i <= j <= s.len()
            &&& is_blank(s.subrange(0, i), Dialect::Strict)
            &&& spells(n, #[trigger] s.subrange(i, j), Dialect::Strict)
            &&& is_blank(s.subrange(j, s.len() as int), Dialect::Strict)
        };
    lemma_strict_blank(s.subrange(0, i));
    lemma_strict_blank(s.subrange(j, s.len() as int));
    lemma_strict(n, s.subrange(i, j));
}

proof fn lemma_strict_elements(es: Seq<Node>, s: Seq<u8>)
    requires
        spells_elements(es, s, Dialect::Strict),
    ensures
        spells_elements(es, s, Dialect::Lenient),
    decreases es, 0nat,
{
    if es.len() == 1 {
        lemma_strict_padded(es[0], s);
    } else {
        let k = choose|k: int|
            {
                &&& 0 <= k < s.len()
                &&& s[k] == COMMA
                &&& spells_padded(es[0], #[trigger] s.subrange(0, k), Dialect::Strict)
                &&& spells_elements(
                    es.drop_first(),
                    s.subrange(k + 1, s.len() as int),
                    Dialect::Strict,
                )
            };
        lemma_strict_padded(es[0], s.subrange(0, k));
        lemma_strict_elements(es.drop_first(), s.subrange(k + 1, s.len() as int));
    }
}

proof fn lemma_strict_member(m: (Seq<char>, Node), s: Seq<u8>)
    requires
        spells_member(m, s, Dialect::Strict),
    ensures
        spells_member(m, s, Dialect::Lenient),
    decreases m, 0nat,
{
    let (i, j, c) = choose|i: int, j: int, c: int|
        {
            &&& 0 <= i <= j <= c < s.len()
            &&& is_blank(s.subrange(0, i), Dialect::Strict)
            &&& spells_string(m.0, #[trigger] s.subrange(i, j), Dialect::Strict)
            &&& is_blank(#[trigger] s.subrange(j, c), Dialect::Strict)
            &&& s[c] == COLON
            &&& spells_padded(m.1, s.subrange(c + 1, s.len() as int), Dialect::Strict)
        };
    lemma_strict_blank(s.subrange(0, i));
    lemma_strict_blank(s.subrange(j, c));
    lemma_strict_body(encode_utf8(m.0));
    lemma_strict_padded(m.1, s.subrange(c + 1, s.len() as int));
    assert(spells_string(m.0, s.subrange(i, j), Dialect::Lenient));
}

proof fn lemma_strict_members(ms: Seq<(Seq<char>, Node)>, s: Seq<u8>)
    requires
        spells_members(ms, s, Dialect::Strict),
    ensures
        spells_members(ms, s, Dialect::Lenient),
    decreases ms, 0nat,
{
    if ms.len() == 1 {
        lemma_strict_member(ms[0], s);
    } else {
        let k = choose|k: int|
            {
                &&& 0 <= k < s.len()
                &&& s[k] == COMMA
                &&& spells_member(ms[0], #[trigger] s.subrange(0, k), Dialect::Strict)
                &&& spells_members(
                    ms.drop_first(),
                    s.subrange(k + 1, s.len() as int),
                    Dialect::Strict,
                )
            };
        lemma_strict_member(ms[0], s.subrange(0, k));
        lemma_strict_members(ms.drop_first(), s.subrange(k + 1, s.len() as int));
    }
}

/// Every text that is well-formed by RFC 8259 and does not nest too deep is accepted, and
/// read as the value that it spells there.
pub proof fn law_well_formed(b: Seq<u8>, n: Node)
    requires
        valid_utf8(b),
        spells_padded(n, b, Dialect::Strict),
        nesting(n) <= MAX_JSON_DEPTH,
    ensures
        grammar::document(b) == Some(n),
{
    lemma_strict_padded(n, b);
    law_document(b, n);
}

/// A text that nests deeper than the limit is rejected, though it spells a value.
pub proof fn law_too_deep(b: Seq<u8>, n: Node)
    requires
        valid_utf8(b),
        spells_padded(n, b, Dialect::Lenient),
        nesting(n) > MAX_JSON_DEPTH,
    ensures
        grammar::document(b) is None,
{
    let len = b.len() as int;
    assert(b.subrange(0, len) =~= b);
    let k = lemma_complete_padded(b, 0, len, n, 0);
}

}
