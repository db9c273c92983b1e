//! Slicing and comparing strings by their UTF-8 bytes.
use vstd::prelude::*;
use vstd::string::*;
use vstd::utf8::*;

use crate::grammar::BACKSLASH;

verus! {

/// `String::push` of std: the character is appended to the end of the string.
pub assume_specification[ std::string::String::push ](s: &mut std::string::String, c: char)
    ensures
        final(s)@ == old(s)@.push(c),
;

/// `String::clear` of std: the string is empty afterwards.
pub assume_specification[ std::string::String::clear ](s: &mut std::string::String)
    ensures
        final(s)@ == Seq::<char>::empty(),
;

/// `String::into_boxed_str` of std: the box holds the text of the string.
pub assume_specification[ std::string::String::into_boxed_str ](s: std::string::String) -> (b: Box<str>)
    ensures
        b@ == s@,
;

/// `char::from_u32` of std: the character with the given scalar value, and none for a
/// surrogate or a number above `0x10ffff`.
pub assume_specification[ char::from_u32 ](i: u32) -> (c: Option<char>)
    ensures
        c == (if i <= 0xd7ff || 0xe000 <= i <= 0x10ffff {
            Some(i as char)
        } else {
            None::<char>
        }),
;

/// One character behind a boundary there is the next one.
pub proof fn lemma_next_boundary(b: Seq<u8>, i: int)
    requires
        valid_utf8(b),
        is_char_boundary(b, i),
        0 <= i < b.len(),
    ensures
        is_char_boundary(b, i + length_of_first_scalar(b.subrange(i, b.len() as int))),
    decreases b.len(),
{
    if i == 0 {
        assert(b.subrange(0, b.len() as int) =~= b);
        reveal_with_fuel(is_char_boundary, 2);
    } else {
        let n = length_of_first_scalar(b);
        let rest = pop_first_scalar(b);
        reveal_with_fuel(is_char_boundary, 2);
        assert(i - n >= 0);
        lemma_next_boundary(rest, i - n);
        assert(rest.subrange(i - n, rest.len() as int) =~= b.subrange(i, b.len() as int));
        valid_utf8_split(b, i);
    }
}

/// An ASCII byte is a character of its own.
pub proof fn lemma_ascii_boundary(b: Seq<u8>, i: int)
    requires
        valid_utf8(b),
        0 <= i < b.len(),
        b[i] < 0x80,
    ensures
        is_char_boundary(b, i),
        is_char_boundary(b, i + 1),
{
    is_char_boundary_iff_not_is_continuation_byte(b, i);
    lemma_next_boundary(b, i);
    let tail = b.subrange(i, b.len() as int);
    assert(tail[0] == b[i]);
}

/// A boundary stays one when what lies before an earlier boundary is cut off.
pub proof fn lemma_tail_boundary(b: Seq<u8>, i: int, j: int)
    requires
        valid_utf8(b),
        0 <= i <= j <= b.len(),
        is_char_boundary(b, i),
        is_char_boundary(b, j),
    ensures
        valid_utf8(b.subrange(i, b.len() as int)),
        is_char_boundary(b.subrange(i, b.len() as int), j - i),
{
    let tail = b.subrange(i, b.len() as int);
    valid_utf8_split(b, i);
    if j < b.len() {
        is_char_boundary_iff_not_is_continuation_byte(b, j);
        is_char_boundary_iff_not_is_continuation_byte(tail, j - i);
    } else {
        is_char_boundary_start_end_of_seq(tail);
    }
}

/// What lies between two boundaries is valid UTF-8.
pub proof fn lemma_valid_slice(b: Seq<u8>, i: int, j: int)
    requires
        valid_utf8(b),
        0 <= i <= j <= b.len(),
        is_char_boundary(b, i),
        is_char_boundary(b, j),
    ensures
        valid_utf8(b.subrange(i, j)),
        encode_utf8(decode_utf8(b.subrange(i, j))) == b.subrange(i, j),
{
    lemma_tail_boundary(b, i, j);
    let tail = b.subrange(i, b.len() as int);
    valid_utf8_split(tail, j - i);
    assert(tail.subrange(0, j - i) =~= b.subrange(i, j));
    decode_utf8_encode_utf8(b.subrange(i, j));
}

/// The part of `s` between the bytes `i` and `j`.
pub fn slice<'a>(s: &'a str, i: usize, j: usize) -> (r: &'a str)
    requires
        i <= j <= s.spec_bytes().len(),
        is_char_boundary(s.spec_bytes(), i as int),
        is_char_boundary(s.spec_bytes(), j as int),
    ensures
        r.spec_bytes() == s.spec_bytes().subrange(i as int, j as int),
        r@ == decode_utf8(s.spec_bytes().subrange(i as int, j as int)),
{
    proof {
        encode_utf8_valid_utf8(s@);
        lemma_tail_boundary(s.spec_bytes(), i as int, j as int);
    }
    let (_, tail) = s.split_at(i);
    let (mid, _) = tail.split_at(j - i);
    proof {
        assert(tail.spec_bytes().subrange(0, j - i) =~= s.spec_bytes().subrange(
            i as int,
            j as int,
        ));
        encode_utf8_decode_utf8(mid@);
    }
    mid
}

/// Whether the two strings have the same text.
pub fn same_text(a: &str, b: &str) -> (r: bool)
    ensures
        r == (a@ == b@),
{
    let x = a.as_bytes();
    let y = b.as_bytes();
    proof {
        encode_utf8_decode_utf8(a@);
        encode_utf8_decode_utf8(b@);
    }
    if x.len() != y.len() {
        return false;
    }
    let mut i: usize = 0;
    while i < x.len()
        invariant
            i <= x@.len() == y@.len(),
            x@ == a.spec_bytes(),
            y@ == b.spec_bytes(),
            forall|k: int| 0 <= k < i ==> x@[k] == y@[k],
        decreases x@.len() - i,
    {
        if x[i] != y[i] {
            return false;
        }
        i += 1;
    }
    assert(x@ =~= y@);
    true
}

/// The first character of `s`, and what follows it.
pub fn split_first<'a>(s: &'a str) -> (r: (char, &'a str))
    requires
        s@.len() > 0,
    ensures
        r.0 == s@[0],
        r.1@ == s@.drop_first(),
        r.1.spec_bytes().len() < s.spec_bytes().len(),
{
    let ghost b = s.spec_bytes();
    proof {
        encode_utf8_first_scalar(s@);
        encode_utf8_valid_utf8(s@);
        encode_utf8_decode_utf8(s@);
        char_is_scalar(s@[0]);
    }
    let bytes = s.as_bytes();
    let first: u8 = bytes[0];
    let width: usize = if first < 0x80 {
        1
    } else if first < 0xe0 {
        2
    } else if first < 0xf0 {
        3
    } else {
        4
    };
    assert(width == length_of_first_scalar(b));
    let mut chars = s.chars();
    let c = chars.next();
    proof {
        is_char_boundary_start_end_of_seq(b);
        lemma_next_boundary(b, 0);
        assert(b.subrange(0, b.len() as int) =~= b);
    }
    let (_, tail) = s.split_at(width);
    proof {
        assert(tail.spec_bytes() =~= encode_utf8(s@.drop_first()));
        encode_utf8_decode_utf8(tail@);
        encode_utf8_decode_utf8(s@.drop_first());
    }
    match c {
        Some(c) => (c, tail),
        None => (' ', tail),
    }
}

/// A concatenation holds what one of its parts holds.
proof fn lemma_contains_concat<A>(x: Seq<A>, y: Seq<A>, a: A)
    ensures
        (x + y).contains(a) <==> x.contains(a) || y.contains(a),
{
    let z = x + y;
    if x.contains(a) {
        let k = choose|k: int| 0 <= k < x.len() && x[k] == a;
        assert(z[k] == a);
    }
    if y.contains(a) {
        let k = choose|k: int| 0 <= k < y.len() && y[k] == a;
        assert(z[x.len() + k] == a);
    }
    if z.contains(a) {
        let k = choose|k: int| 0 <= k < z.len() && z[k] == a;
        if k < x.len() {
            assert(x[k] == a);
        } else {
            assert(y[k - x.len()] == a);
        }
    }
}

/// A text holds a backslash exactly when its encoding holds one.
pub proof fn lemma_backslash(t: Seq<char>)
    ensures
        t.contains('\\') <==> encode_utf8(t).contains(BACKSLASH),
    decreases t.len(),
{
    if t.len() > 0 {
        let c = t[0];
        let tail = t.drop_first();
        lemma_backslash(tail);
        char_is_scalar(c);
        char_u32_cast(c, c as u32);
        lemma_scalar_backslash(c as u32);
        assert(encode_utf8(t) == encode_scalar(c as u32) + encode_utf8(tail));
        lemma_contains_concat(encode_scalar(c as u32), encode_utf8(tail), BACKSLASH);
        assert(t =~= seq![c] + tail);
        lemma_contains_concat(seq![c], tail, '\\');
        assert(seq![c].contains('\\') <==> c == '\\') by {
            assert(seq![c][0] == c);
        }
    }
}

/// Only the backslash itself has a backslash in its encoding.
proof fn lemma_scalar_backslash(c: u32)
    requires
        is_scalar(c),
    ensures
        encode_scalar(c).contains(BACKSLASH) <==> c == '\\' as u32,
{
    assert(c <= 0x7f ==> leading_byte_width_1(c) == c) by (bit_vector);
    assert(leading_byte_width_2(c) >= 0x80) by (bit_vector);
    assert(leading_byte_width_3(c) >= 0x80) by (bit_vector);
    assert(leading_byte_width_4(c) >= 0x80) by (bit_vector);
    assert(last_continuation_byte(c) >= 0x80) by (bit_vector);
    assert(second_last_continuation_byte(c) >= 0x80) by (bit_vector);
    assert(third_last_continuation_byte(c) >= 0x80) by (bit_vector);
    if c == 0x5c {
        assert(encode_scalar(c)[0] == BACKSLASH);
    }
}

}
