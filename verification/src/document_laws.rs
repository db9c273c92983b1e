//! Which texts are documents, said of a text and its parts: how texts are put together to
//! documents, and that every document is put together so.
use vstd::prelude::*;
use vstd::utf8::*;

use crate::grammar;
use crate::grammar::Node;
use crate::number;
use crate::spelling;
use crate::spelling::Dialect;
use crate::text;

verus! {

/// Bytes up to `0x20`, any number of them.
pub open spec fn blank(w: Seq<u8>) -> bool {
    forall|k: int| 0 <= k < w.len() ==> #[trigger] w[k] <= 0x20
}

/// `raw` in quotes.
pub open spec fn in_quotes(raw: Seq<char>) -> Seq<u8> {
    seq![0x22u8] + encode_utf8(raw) + seq![0x22u8]
}

/// The texts one behind the other, with commas between them.
pub open spec fn joined(parts: Seq<Seq<u8>>) -> Seq<u8>
    decreases parts.len(),
{
    if parts.len() == 0 {
        seq![]
    } else if parts.len() == 1 {
        parts[0]
    } else {
        parts[0] + seq![0x2cu8] + joined(parts.drop_first())
    }
}

/// A key in quotes, a colon and a text, with blanks around the key.
pub open spec fn member_text(
    before: Seq<u8>,
    raw: Seq<char>,
    between: Seq<u8>,
    t: Seq<u8>,
) -> Seq<u8> {
    before + in_quotes(raw) + between + seq![0x3au8] + t
}

proof fn lemma_blank(w: Seq<u8>)
    ensures
        blank(w) == spelling::is_blank(w, Dialect::Lenient),
{
    if blank(w) {
        assert forall|k: int| 0 <= k < w.len() implies grammar::is_whitespace(#[trigger] w[k]) by {}
    }
    if spelling::is_blank(w, Dialect::Lenient) {
        assert forall|k: int| 0 <= k < w.len() implies #[trigger] w[k] <= 0x20 by {
            assert(grammar::is_whitespace(w[k]));
        }
    }
}

proof fn lemma_blank_valid(w: Seq<u8>)
    requires
        blank(w),
    ensures
        valid_utf8(w),
    decreases w.len(),
{
    if w.len() > 0 {
        let tail = w.skip(1);
        assert forall|k: int| 0 <= k < tail.len() implies #[trigger] tail[k] <= 0x20 by {
            assert(tail[k] == w[k + 1]);
        }
        lemma_blank_valid(tail);
        lemma_one_valid(w[0]);
        valid_utf8_concat(seq![w[0]], tail);
        assert(seq![w[0]] + tail =~= w);
    }
}

proof fn lemma_one_valid(c: u8)
    requires
        c < 0x80,
    ensures
        valid_utf8(seq![c]),
{
    let s = seq![c as char];
    is_ascii_chars_encode_utf8(s);
    assert(encode_utf8(s) =~= seq![c]) by {
        assert(s[0] as u8 == encode_utf8(s)[0]);
    }
    encode_utf8_valid_utf8(s);
}

/// The part of a valid text between two ASCII bytes, or an end, is valid.
proof fn lemma_cut(b: Seq<u8>, i: int, j: int)
    requires
        valid_utf8(b),
        0 <= i <= j <= b.len(),
        i == 0 || b[i - 1] < 0x80 || (i < b.len() && b[i] < 0x80),
        j == b.len() || b[j] < 0x80 || (j > 0 && b[j - 1] < 0x80),
    ensures
        valid_utf8(b.subrange(i, j)),
{
    is_char_boundary_start_end_of_seq(b);
    if i > 0 {
        if b[i - 1] < 0x80 {
            text::lemma_ascii_boundary(b, i - 1);
        } else {
            text::lemma_ascii_boundary(b, i);
        }
    }
    if j < b.len() {
        if b[j] < 0x80 {
            text::lemma_ascii_boundary(b, j);
        } else {
            text::lemma_ascii_boundary(b, j - 1);
        }
    }
    text::lemma_valid_slice(b, i, j);
}

/// A document spells its value, with blanks around it: returned is where.
proof fn lemma_spelled(b: Seq<u8>, n: Node) -> (r: (int, int))
    requires
        valid_utf8(b),
        grammar::document(b) == Some(n),
    ensures
        0 <= r.0 <= r.1 <= b.len(),
        blank(b.subrange(0, r.0)),
        spelling::spells(n, b.subrange(r.0, r.1), Dialect::Lenient),
        blank(b.subrange(r.1, b.len() as int)),
        b == b.subrange(0, r.0) + b.subrange(r.0, r.1) + b.subrange(r.1, b.len() as int),
        spelling::nesting(n) <= 64,
{
    spelling::law_document(b, n);
    let (i, j) = choose|i: int, j: int|
        {
            &&& 0 <= i <= j <= b.len()
            &&& spelling::is_blank(b.subrange(0, i), Dialect::Lenient)
            &&& spelling::spells(n, #[trigger] b.subrange(i, j), Dialect::Lenient)
            &&& spelling::is_blank(b.subrange(j, b.len() as int), Dialect::Lenient)
        };
    lemma_blank(b.subrange(0, i));
    lemma_blank(b.subrange(j, b.len() as int));
    assert(b =~= b.subrange(0, i) + b.subrange(i, j) + b.subrange(j, b.len() as int));
    (i, j)
}

/// What spells a value is a document, if it does not nest too deep.
proof fn lemma_document(n: Node, s: Seq<u8>)
    requires
        valid_utf8(s),
        spelling::spells(n, s, Dialect::Lenient),
        spelling::nesting(n) <= 64,
    ensures
        grammar::document(s) == Some(n),
{
    let len = s.len() as int;
    assert(s.subrange(0, len) =~= s);
    assert(s.subrange(0, 0).len() == 0);
    assert(s.subrange(len, len).len() == 0);
    assert(spelling::is_blank(s.subrange(0, 0), Dialect::Lenient));
    assert(spelling::is_blank(s.subrange(len, len), Dialect::Lenient));
    assert(spelling::spells(n, s.subrange(0, len), Dialect::Lenient));
    assert(spelling::spells_padded(n, s, Dialect::Lenient));
    spelling::law_document(s, n);
}

/// How deep a value nests: a scalar not at all, and a container one deeper than the deepest
/// of what it holds.
pub proof fn law_nesting(n: Node)
    ensures
        match n {
            Node::Array(es) => {
                &&& spelling::nesting(n) >= 1
                &&& forall|k: int|
                    0 <= k < es.len() ==> spelling::nesting(#[trigger] es[k]) < spelling::nesting(n)
                &&& es.len() == 0 ==> spelling::nesting(n) == 1
                &&& es.len() > 0 ==> exists|k: int|
                    0 <= k < es.len() && spelling::nesting(#[trigger] es[k]) + 1
                        == spelling::nesting(n)
            },
            Node::Object(ms) => {
                &&& spelling::nesting(n) >= 1
                &&& forall|k: int|
                    0 <= k < ms.len() ==> spelling::nesting((#[trigger] ms[k]).1)
                        < spelling::nesting(n)
                &&& ms.len() == 0 ==> spelling::nesting(n) == 1
                &&& ms.len() > 0 ==> exists|k: int|
                    0 <= k < ms.len() && spelling::nesting((#[trigger] ms[k]).1) + 1
                        == spelling::nesting(n)
            },
            _ => spelling::nesting(n) == 0,
        },
{
    match n {
        Node::Array(es) => lemma_nesting_elements(es),
        Node::Object(ms) => lemma_nesting_members(ms),
        _ => {},
    }
}

proof fn lemma_nesting_elements(es: Seq<Node>)
    ensures
        forall|k: int|
            0 <= k < es.len() ==> spelling::nesting(#[trigger] es[k])
                <= spelling::nesting_elements(es),
        es.len() == 0 ==> spelling::nesting_elements(es) == 0,
        es.len() > 0 ==> exists|k: int|
            0 <= k < es.len() && spelling::nesting(#[trigger] es[k]) == spelling::nesting_elements(
                es,
            ),
    decreases es.len(),
{
    if es.len() > 0 {
        let tail = es.drop_first();
        lemma_nesting_elements(tail);
        assert forall|k: int| 0 <= k < es.len() implies spelling::nesting(#[trigger] es[k])
            <= spelling::nesting_elements(es) by {
            if k > 0 {
                assert(tail[k - 1] == es[k]);
            }
        }
        if spelling::nesting(es[0]) == spelling::nesting_elements(es) {
        } else {
            let k = choose|k: int|
                0 <= k < tail.len() && spelling::nesting(#[trigger] tail[k])
                    == spelling::nesting_elements(tail);
            assert(es[k + 1] == tail[k]);
        }
    }
}

proof fn lemma_nesting_members(ms: Seq<(Seq<char>, Node)>)
    ensures
        forall|k: int|
            0 <= k < ms.len() ==> spelling::nesting((#[trigger] ms[k]).1)
                <= spelling::nesting_members(ms),
        ms.len() == 0 ==> spelling::nesting_members(ms) == 0,
        ms.len() > 0 ==> exists|k: int|
            0 <= k < ms.len() && spelling::nesting((#[trigger] ms[k]).1)
                == spelling::nesting_members(ms),
    decreases ms.len(),
{
    if ms.len() > 0 {
        let tail = ms.drop_first();
        lemma_nesting_members(tail);
        assert forall|k: int| 0 <= k < ms.len() implies spelling::nesting((#[trigger] ms[k]).1)
            <= spelling::nesting_members(ms) by {
            if k > 0 {
                assert(tail[k - 1] == ms[k]);
            }
        }
        if spelling::nesting(ms[0].1) == spelling::nesting_members(ms) {
        } else {
            let k = choose|k: int|
                0 <= k < tail.len() && spelling::nesting((#[trigger] tail[k]).1)
                    == spelling::nesting_members(tail);
            assert(ms[k + 1] == tail[k]);
        }
    }
}

/// No document nests deeper than 64.
pub proof fn law_depth_limit(b: Seq<u8>)
    requires
        valid_utf8(b),
        grammar::document(b) is Some,
    ensures
        spelling::nesting(grammar::document(b)->0) <= 64,
{
    spelling::law_document(b, grammar::document(b)->0);
}

/// Blanks around a text make no difference.
pub proof fn law_blanks_around(before: Seq<u8>, b: Seq<u8>, after: Seq<u8>)
    requires
        valid_utf8(b),
        blank(before),
        blank(after),
    ensures
        grammar::document(before + b + after) == grammar::document(b),
{
    lemma_blank(before);
    lemma_blank(after);
    crate::laws::law_surrounding_whitespace(before, b, after);
}

/// The literal names are documents, and every number is one, as its text.
pub proof fn law_atom_is_document(t: Seq<char>)
    ensures
        grammar::document(seq![0x6eu8, 0x75, 0x6c, 0x6c]) == Some(Node::Null),
        grammar::document(seq![0x74u8, 0x72, 0x75, 0x65]) == Some(Node::Bool(true)),
        grammar::document(seq![0x66u8, 0x61, 0x6c, 0x73, 0x65]) == Some(Node::Bool(false)),
        number::is_number(encode_utf8(t)) ==> grammar::document(encode_utf8(t)) == Some(
            Node::Number(t),
        ),
{
    spelling::lemma_names();
    encode_utf8_valid_utf8("null"@);
    encode_utf8_valid_utf8("true"@);
    encode_utf8_valid_utf8("false"@);
    encode_utf8_valid_utf8(t);
    lemma_document(Node::Null, encode_utf8("null"@));
    lemma_document(Node::Bool(true), encode_utf8("true"@));
    lemma_document(Node::Bool(false), encode_utf8("false"@));
    if number::is_number(encode_utf8(t)) {
        lemma_document(Node::Number(t), encode_utf8(t));
    }
}

/// A document whose value is a scalar is its text with blanks around it: returned are the
/// blanks before and after.  Strings are in quotes, and numbers are numbers.
pub proof fn law_scalar_document(b: Seq<u8>, n: Node) -> (r: (Seq<u8>, Seq<u8>))
    requires
        valid_utf8(b),
        grammar::document(b) == Some(n),
    ensures
        blank(r.0),
        blank(r.1),
        match n {
            Node::Null => b == r.0 + seq![0x6eu8, 0x75, 0x6c, 0x6c] + r.1,
            Node::Bool(v) => b == r.0 + (if v {
                seq![0x74u8, 0x72, 0x75, 0x65]
            } else {
                seq![0x66u8, 0x61, 0x6c, 0x73, 0x65]
            }) + r.1,
            Node::Number(t) => b == r.0 + encode_utf8(t) + r.1 && number::is_number(encode_utf8(t)),
            Node::String(raw) => b == r.0 + in_quotes(raw) + r.1 && grammar::document(
                in_quotes(raw),
            ) == Some(n),
            _ => true,
        },
{
    spelling::lemma_names();
    let (i, j) = lemma_spelled(b, n);
    if let Node::String(raw) = n {
        lemma_quotes_valid(raw);
        assert(spelling::spells(n, in_quotes(raw), Dialect::Lenient));
        lemma_document(n, in_quotes(raw));
    }
    (b.subrange(0, i), b.subrange(j, b.len() as int))
}

proof fn lemma_quotes_valid(raw: Seq<char>)
    ensures
        valid_utf8(in_quotes(raw)),
{
    encode_utf8_valid_utf8(raw);
    lemma_one_valid(0x22);
    valid_utf8_concat(seq![0x22u8], encode_utf8(raw));
    valid_utf8_concat(seq![0x22u8] + encode_utf8(raw), seq![0x22u8]);
}

/// `raw` in quotes is a document whose value is that string, or it is not a document with a
/// string as its value at all.
proof fn lemma_string_document(raw: Seq<char>)
    ensures
        grammar::document(in_quotes(raw)) == Some(Node::String(raw)) <==> spelling::is_string_body(
            encode_utf8(raw),
            Dialect::Lenient,
        ),
{
    let b = in_quotes(raw);
    let n = Node::String(raw);
    lemma_quotes_valid(raw);
    if spelling::is_string_body(encode_utf8(raw), Dialect::Lenient) {
        assert(spelling::spells(n, b, Dialect::Lenient));
        lemma_document(n, b);
    }
    if grammar::document(b) == Some(n) {
        let (i, j) = lemma_spelled(b, n);
        assert(b.subrange(i, j) == in_quotes(raw));
    }
}

proof fn lemma_encode_push(t: Seq<char>, x: Seq<char>)
    ensures
        encode_utf8(t + x) == encode_utf8(t) + encode_utf8(x),
    decreases t.len(),
{
    if t.len() == 0 {
        assert(t + x =~= x);
        assert(encode_utf8(t) + encode_utf8(x) =~= encode_utf8(x));
    } else {
        assert((t + x).drop_first() =~= t.drop_first() + x);
        lemma_encode_push(t.drop_first(), x);
        assert(encode_utf8(t + x) =~= encode_utf8(t) + encode_utf8(x));
    }
}

/// A body with more behind it is a body exactly if what is behind it is one.
proof fn lemma_body_concat(s: Seq<u8>, t: Seq<u8>)
    requires
        spelling::is_string_body(s, Dialect::Lenient),
    ensures
        spelling::is_string_body(s + t, Dialect::Lenient) == spelling::is_string_body(
            t,
            Dialect::Lenient,
        ),
    decreases s.len(),
{
    let z = s + t;
    if s.len() == 0 {
        assert(z =~= t);
    } else if s[0] != 0x5c {
        assert(z[0] == s[0]);
        assert(z.skip(1) =~= s.skip(1) + t);
        lemma_body_concat(s.skip(1), t);
    } else {
        assert(z[0] == s[0]);
        assert(z.skip(2) =~= s.skip(2) + t);
        lemma_body_concat(s.skip(2), t);
    }
}

/// Bytes from `0x80` on can stand in a string anywhere.
proof fn lemma_high_body(s: Seq<u8>)
    requires
        forall|k: int| 0 <= k < s.len() ==> #[trigger] s[k] >= 0x80,
    ensures
        spelling::is_string_body(s, Dialect::Lenient),
    decreases s.len(),
{
    if s.len() > 0 {
        let tail = s.skip(1);
        assert forall|k: int| 0 <= k < tail.len() implies #[trigger] tail[k] >= 0x80 by {
            assert(tail[k] == s[k + 1]);
        }
        assert(s[0] >= 0x80);
        lemma_high_body(tail);
    }
}

/// The encoding of one character: the byte of an ASCII character, or bytes from `0x80` on.
proof fn lemma_char_bytes(c: char)
    ensures
        (c as int) < 0x80 ==> encode_utf8(seq![c]) == seq![c as u8],
        (c as int) >= 0x80 ==> encode_utf8(seq![c]).len() > 0 && forall|k: int|
            0 <= k < encode_utf8(seq![c]).len() ==> #[trigger] encode_utf8(seq![c])[k] >= 0x80,
{
    let s = seq![c];
    if (c as int) < 0x80 {
        is_ascii_chars_encode_utf8(s);
        assert(encode_utf8(s) =~= seq![c as u8]) by {
            assert(s[0] as u8 == encode_utf8(s)[0]);
        }
    } else {
        char_is_scalar(c);
        char_u32_cast(c, c as u32);
        let u: u32 = c as u32;
        assert(s.drop_first() =~= seq![]);
        assert(encode_utf8(s) == encode_scalar(u) + encode_utf8(s.drop_first()));
        assert(encode_utf8(s.drop_first()) =~= seq![]);
        assert(encode_utf8(s) =~= encode_scalar(u));
        assert(leading_byte_width_2(u) >= 0x80) by (bit_vector);
        assert(leading_byte_width_3(u) >= 0x80) by (bit_vector);
        assert(leading_byte_width_4(u) >= 0x80) by (bit_vector);
        assert(last_continuation_byte(u) >= 0x80) by (bit_vector);
        assert(second_last_continuation_byte(u) >= 0x80) by (bit_vector);
        assert(third_last_continuation_byte(u) >= 0x80) by (bit_vector);
    }
}

/// The empty text can stand between quotes.  A text that can may be followed there by any
/// character but a quote or a backslash, by a backslash with any character behind it, and by
/// neither a quote nor a lone backslash.
pub proof fn law_string_grows(raw: Seq<char>, c: char)
    ensures
        grammar::document(in_quotes(seq![])) == Some(Node::String(seq![])),
        grammar::document(in_quotes(raw)) == Some(Node::String(raw)) ==> {
            &&& c != '"' && c != '\\' ==> grammar::document(in_quotes(raw + seq![c])) == Some(
                Node::String(raw + seq![c]),
            )
            &&& grammar::document(in_quotes(raw + seq!['\\', c])) == Some(
                Node::String(raw + seq!['\\', c]),
            )
            &&& grammar::document(in_quotes(raw + seq!['"'])) != Some(
                Node::String(raw + seq!['"']),
            )
            &&& grammar::document(in_quotes(raw + seq!['\\'])) != Some(
                Node::String(raw + seq!['\\']),
            )
        },
{
    lemma_string_document(seq![]);
    assert(encode_utf8(Seq::<char>::empty()).len() == 0);
    lemma_string_document(raw);
    if grammar::document(in_quotes(raw)) == Some(Node::String(raw)) {
        let s = encode_utf8(raw);
        lemma_char_bytes(c);
        lemma_char_bytes('"');
        lemma_char_bytes('\\');
        // One character.
        let e = encode_utf8(seq![c]);
        lemma_encode_push(raw, seq![c]);
        lemma_string_document(raw + seq![c]);
        lemma_body_concat(s, e);
        if c != '"' && c != '\\' {
            if (c as int) < 0x80 {
                assert(e.skip(1).len() == 0);
                assert(spelling::is_string_body(e.skip(1), Dialect::Lenient));
                assert(spelling::is_string_body(e, Dialect::Lenient));
            } else {
                lemma_high_body(e);
            }
        }
        // A backslash and a character.
        assert(seq!['\\', c] =~= seq!['\\'] + seq![c]);
        lemma_encode_push(seq!['\\'], seq![c]);
        let f = encode_utf8(seq!['\\', c]);
        assert(f =~= seq![0x5cu8] + e);
        lemma_encode_push(raw, seq!['\\', c]);
        lemma_string_document(raw + seq!['\\', c]);
        lemma_body_concat(s, f);
        assert(f.len() >= 2);
        assert(f.skip(2) =~= e.skip(1));
        if (c as int) < 0x80 {
            assert(e.skip(1).len() == 0);
        } else {
            let tail = e.skip(1);
            assert forall|k: int| 0 <= k < tail.len() implies #[trigger] tail[k] >= 0x80 by {
                assert(tail[k] == e[k + 1]);
            }
            lemma_high_body(tail);
        }
        assert(spelling::is_string_body(f.skip(2), Dialect::Lenient));
        assert(f[0] == 0x5c);
        assert(spelling::is_string_body(f, Dialect::Lenient));
        // A quote, and a lone backslash.
        lemma_encode_push(raw, seq!['"']);
        lemma_string_document(raw + seq!['"']);
        lemma_body_concat(s, seq![0x22u8]);
        assert('"' as u8 == 0x22);
        lemma_encode_push(raw, seq!['\\']);
        lemma_string_document(raw + seq!['\\']);
        lemma_body_concat(s, seq![0x5cu8]);
        assert('\\' as u8 == 0x5c);
    }
}

/// A text that can stand between quotes, and is not empty, is a shorter such text with
/// either a character behind it that is neither a quote nor a backslash, or a backslash and
/// any character.
pub proof fn law_string_shrinks(raw: Seq<char>)
    requires
        raw.len() > 0,
        grammar::document(in_quotes(raw)) == Some(Node::String(raw)),
    ensures
        ({
            let u = raw.take(raw.len() - 1);
            let v = raw.take(raw.len() - 2);
            ||| raw.last() != '"' && raw.last() != '\\' && grammar::document(in_quotes(u)) == Some(
                Node::String(u),
            )
            ||| raw.len() >= 2 && raw[raw.len() - 2] == '\\' && grammar::document(in_quotes(v))
                == Some(Node::String(v))
        }),
{
    lemma_string_document(seq![]);
    assert(encode_utf8(Seq::<char>::empty()).len() == 0);
    assert(raw.take(0) =~= seq![]);
    lemma_shrink(raw, 0);
}

proof fn lemma_shrink(raw: Seq<char>, i: int)
    requires
        0 <= i < raw.len(),
        grammar::document(in_quotes(raw)) == Some(Node::String(raw)),
        grammar::document(in_quotes(raw.take(i))) == Some(Node::String(raw.take(i))),
    ensures
        ({
            let u = raw.take(raw.len() - 1);
            let v = raw.take(raw.len() - 2);
            ||| raw.last() != '"' && raw.last() != '\\' && grammar::document(in_quotes(u)) == Some(
                Node::String(u),
            )
            ||| raw.len() >= 2 && raw[raw.len() - 2] == '\\' && grammar::document(in_quotes(v))
                == Some(Node::String(v))
        }),
    decreases raw.len() - i,
{
    let p = raw.take(i);
    let r = raw.skip(i);
    let c = raw[i];
    let tail = raw.skip(i + 1);
    assert(raw =~= p + r);
    assert(r =~= seq![c] + tail);
    lemma_string_document(raw);
    lemma_string_document(p);
    lemma_encode_push(p, r);
    lemma_encode_push(seq![c], tail);
    lemma_body_concat(encode_utf8(p), encode_utf8(r));
    lemma_char_bytes(c);
    if c == '"' {
        assert(encode_utf8(r)[0] == 0x22);
        assert(false);
    } else if c == '\\' {
        assert(encode_utf8(r)[0] == 0x5c);
        if tail.len() == 0 {
            assert(encode_utf8(tail).len() == 0);
            assert(false);
        }
        law_string_grows(p, raw[i + 1]);
        assert(p + seq!['\\', raw[i + 1]] =~= raw.take(i + 2));
        if i + 2 < raw.len() {
            lemma_shrink(raw, i + 2);
        }
    } else {
        law_string_grows(p, c);
        assert(p + seq![c] =~= raw.take(i + 1));
        if i + 1 < raw.len() {
            lemma_shrink(raw, i + 1);
        }
    }
}

/// Documents, at least one, with commas between them spell the elements.
proof fn lemma_join_elements(parts: Seq<Seq<u8>>, es: Seq<Node>)
    requires
        parts.len() == es.len(),
        es.len() > 0,
        forall|k: int|
            0 <= k < es.len() ==> valid_utf8(#[trigger] parts[k]) && grammar::document(parts[k])
                == Some(es[k]),
    ensures
        spelling::spells_elements(es, joined(parts), Dialect::Lenient),
        valid_utf8(joined(parts)),
    decreases es.len(),
{
    let s = joined(parts);
    spelling::law_document(parts[0], es[0]);
    if es.len() > 1 {
        let rest = parts.drop_first();
        assert forall|k: int| 0 <= k < es.len() - 1 implies valid_utf8(#[trigger] rest[k])
            && grammar::document(rest[k]) == Some(es.drop_first()[k]) by {
            assert(rest[k] == parts[k + 1]);
        }
        lemma_join_elements(rest, es.drop_first());
        let k = parts[0].len() as int;
        assert(s.subrange(0, k) =~= parts[0]);
        assert(s.subrange(k + 1, s.len() as int) =~= joined(rest));
        assert(s[k] == 0x2c);
        lemma_one_valid(0x2c);
        valid_utf8_concat(parts[0], seq![0x2cu8]);
        valid_utf8_concat(parts[0] + seq![0x2cu8], joined(rest));
    }
}

/// What spells elements is documents with commas between them.
proof fn lemma_split_elements(es: Seq<Node>, s: Seq<u8>) -> (parts: Seq<Seq<u8>>)
    requires
        valid_utf8(s),
        spelling::spells_elements(es, s, Dialect::Lenient),
        spelling::nesting_elements(es) <= 64,
    ensures
        parts.len() == es.len(),
        joined(parts) == s,
        forall|k: int|
            0 <= k < es.len() ==> valid_utf8(#[trigger] parts[k]) && grammar::document(parts[k])
                == Some(es[k]),
    decreases es.len(),
{
    if es.len() == 1 {
        spelling::law_document(s, es[0]);
        seq![s]
    } else {
        let k = choose|k: int|
            {
                &&& 0 <= k < s.len()
                &&& s[k] == 0x2c
                &&& spelling::spells_padded(es[0], #[trigger] s.subrange(0, k), Dialect::Lenient)
                &&& spelling::spells_elements(
                    es.drop_first(),
                    s.subrange(k + 1, s.len() as int),
                    Dialect::Lenient,
                )
            };
        let first = s.subrange(0, k);
        let tail = s.subrange(k + 1, s.len() as int);
        lemma_cut(s, 0, k);
        lemma_cut(s, k + 1, s.len() as int);
        spelling::law_document(first, es[0]);
        let rest = lemma_split_elements(es.drop_first(), tail);
        let parts = seq![first] + rest;
        assert(parts.drop_first() =~= rest);
        assert(s =~= first + seq![0x2cu8] + tail);
        assert forall|j: int| 0 <= j < es.len() implies valid_utf8(#[trigger] parts[j])
            && grammar::document(parts[j]) == Some(es[j]) by {
            if j > 0 {
                assert(parts[j] == rest[j - 1]);
                assert(es.drop_first()[j - 1] == es[j]);
            }
        }
        parts
    }
}

proof fn lemma_bracket(open: u8, inner: Seq<u8>, close: u8)
    requires
        open < 0x80,
        close < 0x80,
        valid_utf8(inner),
    ensures
        ({
            let s = seq![open] + inner + seq![close];
            &&& valid_utf8(s)
            &&& s.subrange(1, s.len() - 1) == inner
            &&& s[0] == open
            &&& s.last() == close
        }),
{
    let s = seq![open] + inner + seq![close];
    lemma_one_valid(open);
    lemma_one_valid(close);
    valid_utf8_concat(seq![open], inner);
    valid_utf8_concat(seq![open] + inner, seq![close]);
    assert(s.subrange(1, s.len() - 1) =~= inner);
}

/// What spells a value that nests too deep is no document.
proof fn lemma_no_document(n: Node, s: Seq<u8>)
    requires
        valid_utf8(s),
        spelling::spells(n, s, Dialect::Lenient),
        spelling::nesting(n) > 64,
    ensures
        grammar::document(s) is None,
{
    let len = s.len() as int;
    assert(s.subrange(0, len) =~= s);
    assert(spelling::is_blank(s.subrange(0, 0), Dialect::Lenient));
    assert(spelling::is_blank(s.subrange(len, len), Dialect::Lenient));
    assert(spelling::spells(n, s.subrange(0, len), Dialect::Lenient));
    assert(spelling::spells_padded(n, s, Dialect::Lenient));
    spelling::law_too_deep(s, n);
}

/// Documents in square brackets, with commas between them, are the document of the array of
/// their values, unless one of them nests 64 deep already: then the whole is rejected.
/// Blanks in square brackets are the empty array.
pub proof fn law_array_from_parts(parts: Seq<Seq<u8>>, es: Seq<Node>, w: Seq<u8>)
    requires
        parts.len() == es.len(),
        es.len() > 0,
        forall|k: int|
            0 <= k < es.len() ==> valid_utf8(#[trigger] parts[k]) && grammar::document(parts[k])
                == Some(es[k]),
        blank(w),
    ensures
        grammar::document(seq![0x5bu8] + joined(parts) + seq![0x5du8]) == (if forall|k: int|
            0 <= k < es.len() ==> spelling::nesting(#[trigger] es[k]) <= 63 {
            Some(Node::Array(es))
        } else {
            None
        }),
        grammar::document(seq![0x5bu8] + w + seq![0x5du8]) == Some(Node::Array(seq![])),
{
    lemma_join_elements(parts, es);
    lemma_bracket(0x5b, joined(parts), 0x5d);
    let n = Node::Array(es);
    let s = seq![0x5bu8] + joined(parts) + seq![0x5du8];
    assert(spelling::spells(n, s, Dialect::Lenient));
    law_nesting(n);
    if forall|k: int| 0 <= k < es.len() ==> spelling::nesting(#[trigger] es[k]) <= 63 {
        lemma_document(n, s);
    } else {
        lemma_no_document(n, s);
    }
    lemma_blank(w);
    lemma_blank_valid(w);
    lemma_bracket(0x5b, w, 0x5d);
    let empty = Node::Array(seq![]);
    assert(spelling::spells(empty, seq![0x5bu8] + w + seq![0x5du8], Dialect::Lenient));
    law_nesting(empty);
    lemma_document(empty, seq![0x5bu8] + w + seq![0x5du8]);
}

/// A document whose value is an array is square brackets with blanks around them, and in
/// them documents of the elements with commas between, or nothing but blanks.  Returned are
/// the blanks before, what is between the commas, and the blanks after.
pub proof fn law_array_has_parts(b: Seq<u8>, es: Seq<Node>) -> (r: (
    Seq<u8>,
    Seq<Seq<u8>>,
    Seq<u8>,
))
    requires
        valid_utf8(b),
        grammar::document(b) == Some(Node::Array(es)),
    ensures
        blank(r.0),
        blank(r.2),
        b == r.0 + (seq![0x5bu8] + joined(r.1) + seq![0x5du8]) + r.2,
        es.len() == 0 ==> r.1.len() == 1 && blank(r.1[0]),
        es.len() > 0 ==> r.1.len() == es.len(),
        forall|k: int|
            0 <= k < es.len() ==> valid_utf8(#[trigger] r.1[k]) && grammar::document(r.1[k])
                == Some(es[k]),
{
    let n = Node::Array(es);
    let (i, j) = lemma_spelled(b, n);
    let s = b.subrange(i, j);
    let inner = s.subrange(1, s.len() - 1);
    assert(s[0] == b[i] && s.last() == b[j - 1]);
    assert(s =~= seq![0x5bu8] + inner + seq![0x5du8]);
    let before = b.subrange(0, i);
    let after = b.subrange(j, b.len() as int);
    let parts = if es.len() == 0 {
        lemma_blank(inner);
        seq![inner]
    } else {
        assert(inner =~= b.subrange(i + 1, j - 1));
        lemma_cut(b, i + 1, j - 1);
        lemma_split_elements(es, inner)
    };
    (before, parts, after)
}

/// The texts of the members `ms`, one for each.
pub open spec fn member_texts(
    ms: Seq<(Seq<char>, Node)>,
    before: Seq<Seq<u8>>,
    between: Seq<Seq<u8>>,
    values: Seq<Seq<u8>>,
) -> Seq<Seq<u8>> {
    Seq::new(ms.len(), |k: int| member_text(before[k], ms[k].0, between[k], values[k]))
}

/// Of the member at `k`: the blanks are blank, the key can stand between quotes, and the
/// text is a document of the value.
pub open spec fn member_fits(
    ms: Seq<(Seq<char>, Node)>,
    before: Seq<Seq<u8>>,
    between: Seq<Seq<u8>>,
    values: Seq<Seq<u8>>,
    k: int,
) -> bool {
    &&& blank(before[k])
    &&& blank(between[k])
    &&& grammar::document(in_quotes(ms[k].0)) == Some(Node::String(ms[k].0))
    &&& valid_utf8(values[k])
    &&& grammar::document(values[k]) == Some(ms[k].1)
}

proof fn lemma_member_spelled(
    m: (Seq<char>, Node),
    before: Seq<u8>,
    between: Seq<u8>,
    t: Seq<u8>,
)
    requires
        blank(before),
        blank(between),
        grammar::document(in_quotes(m.0)) == Some(Node::String(m.0)),
        valid_utf8(t),
        grammar::document(t) == Some(m.1),
    ensures
        spelling::spells_member(m, member_text(before, m.0, between, t), Dialect::Lenient),
        valid_utf8(member_text(before, m.0, between, t)),
{
    let q = in_quotes(m.0);
    let s = member_text(before, m.0, between, t);
    let i = before.len() as int;
    let j = i + q.len();
    let c = j + between.len();
    lemma_blank(before);
    lemma_blank(between);
    lemma_string_document(m.0);
    spelling::law_document(t, m.1);
    assert(s.subrange(0, i) =~= before);
    assert(s.subrange(i, j) =~= q);
    assert(s.subrange(j, c) =~= between);
    assert(s[c] == 0x3a);
    assert(s.subrange(c + 1, s.len() as int) =~= t);
    assert(spelling::spells_string(m.0, s.subrange(i, j), Dialect::Lenient));
    lemma_blank_valid(before);
    lemma_blank_valid(between);
    lemma_quotes_valid(m.0);
    lemma_one_valid(0x3a);
    valid_utf8_concat(before, q);
    valid_utf8_concat(before + q, between);
    valid_utf8_concat(before + q + between, seq![0x3au8]);
    valid_utf8_concat(before + q + between + seq![0x3au8], t);
}

proof fn lemma_join_members(
    ms: Seq<(Seq<char>, Node)>,
    before: Seq<Seq<u8>>,
    between: Seq<Seq<u8>>,
    values: Seq<Seq<u8>>,
)
    requires
        ms.len() > 0,
        before.len() == ms.len(),
        between.len() == ms.len(),
        values.len() == ms.len(),
        forall|k: int| 0 <= k < ms.len() ==> #[trigger] member_fits(ms, before, between, values, k),
    ensures
        spelling::spells_members(
            ms,
            joined(member_texts(ms, before, between, values)),
            Dialect::Lenient,
        ),
        valid_utf8(joined(member_texts(ms, before, between, values))),
    decreases ms.len(),
{
    let parts = member_texts(ms, before, between, values);
    let s = joined(parts);
    assert(member_fits(ms, before, between, values, 0));
    lemma_member_spelled(ms[0], before[0], between[0], values[0]);
    if ms.len() > 1 {
        let rest = parts.drop_first();
        let tail = ms.drop_first();
        assert forall|k: int| 0 <= k < tail.len() implies #[trigger] member_fits(
            tail,
            before.drop_first(),
            between.drop_first(),
            values.drop_first(),
            k,
        ) by {
            assert(member_fits(ms, before, between, values, k + 1));
        }
        assert(rest =~= member_texts(
            tail,
            before.drop_first(),
            between.drop_first(),
            values.drop_first(),
        ));
        lemma_join_members(
            tail,
            before.drop_first(),
            between.drop_first(),
            values.drop_first(),
        );
        let k = parts[0].len() as int;
        assert(s.subrange(0, k) =~= parts[0]);
        assert(s.subrange(k + 1, s.len() as int) =~= joined(rest));
        assert(s[k] == 0x2c);
        lemma_one_valid(0x2c);
        valid_utf8_concat(parts[0], seq![0x2cu8]);
        valid_utf8_concat(parts[0] + seq![0x2cu8], joined(rest));
    }
}

/// Members in braces, with commas between them, each a key in quotes, a colon and a document,
/// are the document of the object, unless one of the values nests 64 deep already: then the
/// whole is rejected.  Blanks in braces are the empty object.
pub proof fn law_object_from_parts(
    ms: Seq<(Seq<char>, Node)>,
    before: Seq<Seq<u8>>,
    between: Seq<Seq<u8>>,
    values: Seq<Seq<u8>>,
    w: Seq<u8>,
)
    requires
        ms.len() > 0,
        before.len() == ms.len(),
        between.len() == ms.len(),
        values.len() == ms.len(),
        forall|k: int| 0 <= k < ms.len() ==> #[trigger] member_fits(ms, before, between, values, k),
        blank(w),
    ensures
        grammar::document(
            seq![0x7bu8] + joined(member_texts(ms, before, between, values)) + seq![0x7du8],
        ) == (if forall|k: int|
            0 <= k < ms.len() ==> spelling::nesting((#[trigger] ms[k]).1) <= 63 {
            Some(Node::Object(ms))
        } else {
            None
        }),
        grammar::document(seq![0x7bu8] + w + seq![0x7du8]) == Some(Node::Object(seq![])),
{
    let inner = joined(member_texts(ms, before, between, values));
    lemma_join_members(ms, before, between, values);
    lemma_bracket(0x7b, inner, 0x7d);
    let n = Node::Object(ms);
    let s = seq![0x7bu8] + inner + seq![0x7du8];
    assert(spelling::spells(n, s, Dialect::Lenient));
    law_nesting(n);
    if forall|k: int| 0 <= k < ms.len() ==> spelling::nesting((#[trigger] ms[k]).1) <= 63 {
        lemma_document(n, s);
    } else {
        lemma_no_document(n, s);
    }
    lemma_blank(w);
    lemma_blank_valid(w);
    lemma_bracket(0x7b, w, 0x7d);
    let empty = Node::Object(seq![]);
    assert(spelling::spells(empty, seq![0x7bu8] + w + seq![0x7du8], Dialect::Lenient));
    law_nesting(empty);
    lemma_document(empty, seq![0x7bu8] + w + seq![0x7du8]);
}

/// What spells a member is a key in quotes, a colon and a document, with blanks around the
/// key.
proof fn lemma_split_member(m: (Seq<char>, Node), s: Seq<u8>) -> (r: (Seq<u8>, Seq<u8>, Seq<u8>))
    requires
        valid_utf8(s),
        spelling::spells_member(m, s, Dialect::Lenient),
        spelling::nesting(m.1) <= 64,
    ensures
        s == member_text(r.0, m.0, r.1, r.2),
        blank(r.0),
        blank(r.1),
        grammar::document(in_quotes(m.0)) == Some(Node::String(m.0)),
        valid_utf8(r.2),
        grammar::document(r.2) == Some(m.1),
{
    let (i, j, c) = choose|i: int, j: int, c: int|
        {
            &&& 0 <= i <= j <= c < s.len()
            &&& spelling::is_blank(s.subrange(0, i), Dialect::Lenient)
            &&& spelling::spells_string(m.0, #[trigger] s.subrange(i, j), Dialect::Lenient)
            &&& spelling::is_blank(#[trigger] s.subrange(j, c), Dialect::Lenient)
            &&& s[c] == 0x3a
            &&& spelling::spells_padded(
                m.1,
                s.subrange(c + 1, s.len() as int),
                Dialect::Lenient,
            )
        };
    let before = s.subrange(0, i);
    let between = s.subrange(j, c);
    let t = s.subrange(c + 1, s.len() as int);
    lemma_blank(before);
    lemma_blank(between);
    lemma_string_document(m.0);
    lemma_cut(s, c + 1, s.len() as int);
    spelling::law_document(t, m.1);
    assert(s.subrange(i, j) == in_quotes(m.0));
    assert(s =~= before + s.subrange(i, j) + between + seq![0x3au8] + t);
    (before, between, t)
}

proof fn lemma_split_members(ms: Seq<(Seq<char>, Node)>, s: Seq<u8>) -> (r: (
    Seq<Seq<u8>>,
    Seq<Seq<u8>>,
    Seq<Seq<u8>>,
))
    requires
        valid_utf8(s),
        spelling::spells_members(ms, s, Dialect::Lenient),
        spelling::nesting_members(ms) <= 64,
    ensures
        r.0.len() == ms.len(),
        r.1.len() == ms.len(),
        r.2.len() == ms.len(),
        joined(member_texts(ms, r.0, r.1, r.2)) == s,
        forall|k: int| 0 <= k < ms.len() ==> #[trigger] member_fits(ms, r.0, r.1, r.2, k),
    decreases ms.len(),
{
    if ms.len() == 1 {
        let (a, b, t) = lemma_split_member(ms[0], s);
        let r = (seq![a], seq![b], seq![t]);
        assert(member_texts(ms, r.0, r.1, r.2)[0] == s);
        r
    } else {
        let k = choose|k: int|
            {
                &&& 0 <= k < s.len()
                &&& s[k] == 0x2c
                &&& spelling::spells_member(ms[0], #[trigger] s.subrange(0, k), Dialect::Lenient)
                &&& spelling::spells_members(
                    ms.drop_first(),
                    s.subrange(k + 1, s.len() as int),
                    Dialect::Lenient,
                )
            };
        let first = s.subrange(0, k);
        let tail = s.subrange(k + 1, s.len() as int);
        lemma_cut(s, 0, k);
        lemma_cut(s, k + 1, s.len() as int);
        let (a, b, t) = lemma_split_member(ms[0], first);
        let rest = lemma_split_members(ms.drop_first(), tail);
        let r = (seq![a] + rest.0, seq![b] + rest.1, seq![t] + rest.2);
        let parts = member_texts(ms, r.0, r.1, r.2);
        assert(parts[0] == first);
        assert(parts.drop_first() =~= member_texts(ms.drop_first(), rest.0, rest.1, rest.2));
        assert(s =~= first + seq![0x2cu8] + tail);
        assert forall|j: int| 0 <= j < ms.len() implies #[trigger] member_fits(
            ms,
            r.0,
            r.1,
            r.2,
            j,
        ) by {
            if j > 0 {
                assert(member_fits(ms.drop_first(), rest.0, rest.1, rest.2, j - 1));
                assert(ms.drop_first()[j - 1] == ms[j]);
            }
        }
        r
    }
}

/// A document whose value is an object is braces with blanks around them, and in them the
/// members with commas between, each a key in quotes, a colon and a document of the value,
/// or nothing but blanks.  Returned are the blanks before and after, what stands between the
/// braces, and of each member the blanks around its key and the text of its value.
pub proof fn law_object_has_parts(b: Seq<u8>, ms: Seq<(Seq<char>, Node)>) -> (r: (
    (Seq<u8>, Seq<u8>, Seq<u8>),
    (Seq<Seq<u8>>, Seq<Seq<u8>>, Seq<Seq<u8>>),
))
    requires
        valid_utf8(b),
        grammar::document(b) == Some(Node::Object(ms)),
    ensures
        ({
            let ((first, inner, last), (before, between, values)) = r;
            &&& blank(first)
            &&& blank(last)
            &&& b == first + (seq![0x7bu8] + inner + seq![0x7du8]) + last
            &&& ms.len() == 0 ==> blank(inner)
            &&& ms.len() > 0 ==> inner == joined(member_texts(ms, before, between, values))
            &&& before.len() == ms.len() && between.len() == ms.len() && values.len() == ms.len()
            &&& forall|k: int|
                0 <= k < ms.len() ==> #[trigger] member_fits(ms, before, between, values, k)
        }),
{
    let n = Node::Object(ms);
    let (i, j) = lemma_spelled(b, n);
    let s = b.subrange(i, j);
    let inner = s.subrange(1, s.len() - 1);
    assert(s[0] == b[i] && s.last() == b[j - 1]);
    assert(s =~= seq![0x7bu8] + inner + seq![0x7du8]);
    let first = b.subrange(0, i);
    let last = b.subrange(j, b.len() as int);
    let parts = if ms.len() == 0 {
        lemma_blank(inner);
        (seq![], seq![], seq![])
    } else {
        assert(inner =~= b.subrange(i + 1, j - 1));
        lemma_cut(b, i + 1, j - 1);
        lemma_split_members(ms, inner)
    };
    ((first, inner, last), parts)
}

}
