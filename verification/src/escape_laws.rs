//! What decoding does to each escape sequence, whatever follows it.
use vstd::prelude::*;

use crate::unescape;

verus! {

/// `c` is a hexadecimal digit with the value `v`, a letter in either case.
pub open spec fn spells_hex(c: char, v: int) -> bool {
    ||| 0 <= v <= 9 && c as int == 48 + v
    ||| 10 <= v <= 15 && c as int == 87 + v
    ||| 10 <= v <= 15 && c as int == 55 + v
}

/// `c` is a hexadecimal digit.
pub open spec fn is_hex_char(c: char) -> bool {
    '0' <= c <= '9' || 'a' <= c <= 'f' || 'A' <= c <= 'F'
}

/// `s` starts with four hexadecimal digits.
pub open spec fn four_digits(s: Seq<char>) -> bool {
    s.len() >= 4 && is_hex_char(s[0]) && is_hex_char(s[1]) && is_hex_char(s[2]) && is_hex_char(s[3])
}

/// The digits of `s`, four of them, spell the number `u`, the most significant one first.
pub open spec fn spells_unit(s: Seq<char>, u: int) -> bool {
    &&& s.len() == 4
    &&& 0 <= u < 65536
    &&& spells_hex(s[0], u / 4096)
    &&& spells_hex(s[1], u / 256 % 16)
    &&& spells_hex(s[2], u / 16 % 16)
    &&& spells_hex(s[3], u % 16)
}

/// Nothing is decoded to nothing, and a backslash with nothing behind it too.
pub proof fn law_decode_ends()
    ensures
        unescape::unescape(Seq::<char>::empty()) == Seq::<char>::empty(),
        unescape::unescape(seq!['\\']) == Seq::<char>::empty(),
{
}

/// A character other than a backslash stands for itself, whatever follows.
pub proof fn law_decode_plain(x: char, rest: Seq<char>)
    requires
        x != '\\',
    ensures
        unescape::unescape(seq![x] + rest) == seq![x] + unescape::unescape(rest),
{
    assert((seq![x] + rest).skip(1) =~= rest);
}

/// Each of the eight short escapes stands for one character, whatever follows.
pub proof fn law_decode_short(rest: Seq<char>)
    ensures
        unescape::unescape(seq!['\\', '"'] + rest) == seq!['"'] + unescape::unescape(rest),
        unescape::unescape(seq!['\\', '\\'] + rest) == seq!['\\'] + unescape::unescape(rest),
        unescape::unescape(seq!['\\', '/'] + rest) == seq!['/'] + unescape::unescape(rest),
        unescape::unescape(seq!['\\', 'b'] + rest) == seq!['\u{8}'] + unescape::unescape(rest),
        unescape::unescape(seq!['\\', 'f'] + rest) == seq!['\u{c}'] + unescape::unescape(rest),
        unescape::unescape(seq!['\\', 'n'] + rest) == seq!['\u{a}'] + unescape::unescape(rest),
        unescape::unescape(seq!['\\', 'r'] + rest) == seq!['\u{d}'] + unescape::unescape(rest),
        unescape::unescape(seq!['\\', 't'] + rest) == seq!['\u{9}'] + unescape::unescape(rest),
{
    lemma_short('"', '"', rest);
    lemma_short('\\', '\\', rest);
    lemma_short('/', '/', rest);
    lemma_short('b', '\u{8}', rest);
    lemma_short('f', '\u{c}', rest);
    lemma_short('n', '\u{a}', rest);
    lemma_short('r', '\u{d}', rest);
    lemma_short('t', '\u{9}', rest);
}

proof fn lemma_short(c: char, d: char, rest: Seq<char>)
    requires
        unescape::short_escape(c) == Some(d),
    ensures
        unescape::unescape(seq!['\\', c] + rest) == seq![d] + unescape::unescape(rest),
{
    let s = seq!['\\', c] + rest;
    assert(s[0] == '\\' && s[1] == c);
    assert(s.skip(2) =~= rest);
}

/// A backslash in front of any other character is kept with it: in front of one that names
/// no escape sequence, and of a `u` that four hexadecimal digits do not follow.
pub proof fn law_decode_unknown(c: char, rest: Seq<char>)
    requires
        c != '"' && c != '\\' && c != '/' && c != 'b' && c != 'f' && c != 'n' && c != 'r' && c != 't',
        c == 'u' ==> !four_digits(rest),
    ensures
        unescape::unescape(seq!['\\', c] + rest) == seq!['\\', c] + unescape::unescape(rest),
{
    let s = seq!['\\', c] + rest;
    assert(s[0] == '\\' && s[1] == c);
    assert(s.skip(2) =~= rest);
}

/// Four digits spell the number that decoding takes them for.
proof fn lemma_hex4(digits: Seq<char>, u: int, rest: Seq<char>)
    requires
        spells_unit(digits, u),
    ensures
        unescape::hex4(digits + rest) == Some(u),
{
    let s = digits + rest;
    assert(s[0] == digits[0] && s[1] == digits[1] && s[2] == digits[2] && s[3] == digits[3]);
    lemma_digit(s[0], u / 4096);
    lemma_digit(s[1], u / 256 % 16);
    lemma_digit(s[2], u / 16 % 16);
    lemma_digit(s[3], u % 16);
}

proof fn lemma_digit(c: char, v: int)
    requires
        spells_hex(c, v),
    ensures
        unescape::hex_digit(c) == Some(v),
{
}

/// `\u` and four digits that spell a number outside the surrogates stand for the character
/// with that number, whatever follows.
pub proof fn law_decode_unit(digits: Seq<char>, u: int, rest: Seq<char>)
    requires
        spells_unit(digits, u),
        !(0xd800 <= u <= 0xdfff),
    ensures
        unescape::unescape(seq!['\\', 'u'] + digits + rest) == seq![u as char] + unescape::unescape(
            rest,
        ),
{
    let s = seq!['\\', 'u'] + digits + rest;
    assert(s[0] == '\\' && s[1] == 'u');
    assert(unescape::short_escape('u') is None);
    assert(s.skip(2) =~= digits + rest);
    assert(s.skip(6) =~= rest);
    lemma_hex4(digits, u, rest);
}

/// Two such sequences that spell a surrogate pair stand for the one character that the pair
/// encodes, whatever follows.
pub proof fn law_decode_pair(first: Seq<char>, hi: int, second: Seq<char>, lo: int, rest: Seq<char>)
    requires
        spells_unit(first, hi),
        spells_unit(second, lo),
        0xd800 <= hi <= 0xdbff,
        0xdc00 <= lo <= 0xdfff,
    ensures
        unescape::unescape(seq!['\\', 'u'] + first + seq!['\\', 'u'] + second + rest) == seq![
            (65536 + (hi - 0xd800) * 1024 + (lo - 0xdc00)) as char,
        ] + unescape::unescape(rest),
{
    let tail = seq!['\\', 'u'] + second + rest;
    let s = seq!['\\', 'u'] + first + seq!['\\', 'u'] + second + rest;
    assert(s =~= seq!['\\', 'u'] + first + tail);
    assert(s[0] == '\\' && s[1] == 'u');
    assert(unescape::short_escape('u') is None);
    assert(s.skip(2) =~= first + tail);
    lemma_hex4(first, hi, tail);
    assert(s.skip(6) =~= tail);
    assert(tail[0] == '\\' && tail[1] == 'u');
    assert(tail.skip(2) =~= second + rest);
    lemma_hex4(second, lo, rest);
    assert(unescape::low_surrogate(tail) == Some(lo));
    assert(s.skip(12) =~= rest);
}

/// A surrogate that is not the first half of a pair is dropped: a second half, and a first
/// half that `\u` and a second half do not follow.
pub proof fn law_decode_lone_surrogate(digits: Seq<char>, u: int, rest: Seq<char>)
    requires
        spells_unit(digits, u),
        0xd800 <= u <= 0xdfff,
        u <= 0xdbff ==> forall|lo: int|
            0xdc00 <= lo <= 0xdfff && rest.len() >= 6 && rest[0] == '\\' && rest[1] == 'u'
                ==> !#[trigger] spells_unit(rest.subrange(2, 6), lo),
    ensures
        unescape::unescape(seq!['\\', 'u'] + digits + rest) == unescape::unescape(rest),
{
    let s = seq!['\\', 'u'] + digits + rest;
    assert(s[0] == '\\' && s[1] == 'u');
    assert(unescape::short_escape('u') is None);
    assert(s.skip(2) =~= digits + rest);
    assert(s.skip(6) =~= rest);
    lemma_hex4(digits, u, rest);
    if u <= 0xdbff {
        if let Some(lo) = unescape::low_surrogate(rest) {
            let d = rest.subrange(2, 6);
            let t = rest.skip(2);
            assert(d[0] == t[0] && d[1] == t[1] && d[2] == t[2] && d[3] == t[3]);
            lemma_units(d, lo);
            assert(false);
        }
    }
    assert(unescape::scalar_text(u) =~= seq![]);
    assert(unescape::unescape(s) =~= unescape::unescape(rest));
}

/// What decoding takes four digits for, they spell.
proof fn lemma_units(d: Seq<char>, u: int)
    requires
        d.len() == 4,
        unescape::hex4(d) == Some(u),
    ensures
        spells_unit(d, u),
{
    let a = unescape::hex_digit(d[0])->0;
    let b = unescape::hex_digit(d[1])->0;
    let c = unescape::hex_digit(d[2])->0;
    let e = unescape::hex_digit(d[3])->0;
    assert(0 <= a < 16 && 0 <= b < 16 && 0 <= c < 16 && 0 <= e < 16);
    assert(u == ((a * 16 + b) * 16 + c) * 16 + e);
    assert(u / 16 == (a * 16 + b) * 16 + c);
    assert(u / 256 == a * 16 + b);
    assert(u / 4096 == a);
    assert(u % 16 == e);
    assert(u / 16 % 16 == c);
    assert(u / 256 % 16 == b);
}

}
