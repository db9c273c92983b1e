//! Decoding of the escape sequences in JSON strings.
use vstd::prelude::*;
use vstd::string::*;

use crate::text::split_first;

verus! {

/// What the escape sequence `\c` of two characters stands for.
pub open spec fn short_escape(c: char) -> Option<char> {
    if c == '"' || c == '\\' || c == '/' {
        Some(c)
    } else if c == 'b' {
        Some('\u{8}')
    } else if c == 'f' {
        Some('\u{c}')
    } else if c == 'n' {
        Some('\n')
    } else if c == 'r' {
        Some('\r')
    } else if c == 't' {
        Some('\t')
    } else {
        None
    }
}

/// The value of a hexadecimal digit.
pub open spec fn hex_digit(c: char) -> Option<int> {
    if '0' <= c <= '9' {
        Some(c as int - '0' as int)
    } else if 'a' <= c <= 'f' {
        Some(c as int - 'a' as int + 10)
    } else if 'A' <= c <= 'F' {
        Some(c as int - 'A' as int + 10)
    } else {
        None
    }
}

/// The number that the first four characters of `s` spell in hexadecimal.
pub open spec fn hex4(s: Seq<char>) -> Option<int> {
    if s.len() < 4 {
        None
    } else {
        match (hex_digit(s[0]), hex_digit(s[1]), hex_digit(s[2]), hex_digit(s[3])) {
            (Some(a), Some(b), Some(c), Some(d)) => Some(((a * 16 + b) * 16 + c) * 16 + d),
            _ => None,
        }
    }
}

/// The value of the second half of a surrogate pair, if `s` starts with one: `\u` and a
/// low surrogate.
pub open spec fn low_surrogate(s: Seq<char>) -> Option<int> {
    if s.len() >= 2 && s[0] == '\\' && s[1] == 'u' {
        match hex4(s.skip(2)) {
            Some(lo) => if 0xdc00 <= lo <= 0xdfff {
                Some(lo)
            } else {
                None
            },
            None => None,
        }
    } else {
        None
    }
}

/// The character with scalar value `v`, or nothing for a surrogate.
pub open spec fn scalar_text(v: int) -> Seq<char> {
    if 0xd800 <= v <= 0xdfff {
        seq![]
    } else {
        seq![v as char]
    }
}

/// `s` with its escape sequences decoded.
///
/// * `\"` `\\` `\/` `\b` `\f` `\n` `\r` `\t` stand for one character each.
/// * `\u` and four hexadecimal digits stand for the character with that number, and two
///   of them that make a surrogate pair for the character that the pair encodes.  A
///   surrogate without its other half is dropped.
/// * Anything else behind a backslash is kept, with the backslash: an unknown character,
///   and a `u` that four hexadecimal digits do not follow.
/// * A backslash at the very end is dropped.
pub open spec fn unescape(s: Seq<char>) -> Seq<char>
    decreases s.len(),
{
    if s.len() == 0 {
        seq![]
    } else if s[0] != '\\' {
        seq![s[0]] + unescape(s.skip(1))
    } else if s.len() == 1 {
        seq![]
    } else if short_escape(s[1]) is Some {
        seq![short_escape(s[1])->0] + unescape(s.skip(2))
    } else if s[1] != 'u' {
        seq!['\\', s[1]] + unescape(s.skip(2))
    } else {
        match hex4(s.skip(2)) {
            None => seq!['\\', 'u'] + unescape(s.skip(2)),
            Some(hi) => match low_surrogate(s.skip(6)) {
                Some(lo) if 0xd800 <= hi <= 0xdbff => scalar_text(
                    0x10000 + (hi - 0xd800) * 0x400 + (lo - 0xdc00),
                ) + unescape(s.skip(12)),
                _ => scalar_text(hi) + unescape(s.skip(6)),
            },
        }
    }
}

/// What the escape sequence `\c` of two characters stands for.
fn decode_short(c: char) -> (r: Option<char>)
    ensures
        r == short_escape(c),
{
    if c == '"' || c == '\\' || c == '/' {
        Some(c)
    } else if c == 'b' {
        Some('\u{8}')
    } else if c == 'f' {
        Some('\u{c}')
    } else if c == 'n' {
        Some('\n')
    } else if c == 'r' {
        Some('\r')
    } else if c == 't' {
        Some('\t')
    } else {
        None
    }
}

/// The value of a hexadecimal digit.
fn decode_digit(c: char) -> (r: Option<u32>)
    ensures
        match r {
            Some(v) => hex_digit(c) == Some(v as int) && v < 16,
            None => hex_digit(c) is None,
        },
{
    if '0' <= c && c <= '9' {
        Some(c as u32 - '0' as u32)
    } else if 'a' <= c && c <= 'f' {
        Some(c as u32 - 'a' as u32 + 10)
    } else if 'A' <= c && c <= 'F' {
        Some(c as u32 - 'A' as u32 + 10)
    } else {
        None
    }
}

/// The number that the first four characters of `s` spell, and what follows them.
fn decode_hex4<'a>(s: &'a str) -> (r: Option<(u32, &'a str)>)
    ensures
        match r {
            Some((v, t)) => {
                &&& hex4(s@) == Some(v as int)
                &&& v < 0x10000
                &&& t@ == s@.skip(4)
                &&& t.spec_bytes().len() < s.spec_bytes().len()
            },
            None => hex4(s@) is None,
        },
{
    let mut rest = s;
    let mut value: u32 = 0;
    let mut i: usize = 0;
    while i < 4
        invariant
            i <= 4,
            i <= s@.len(),
            rest@ == s@.skip(i as int),
            i > 0 ==> rest.spec_bytes().len() < s.spec_bytes().len(),
            i == 0 ==> value == 0 && rest == s,
            i == 1 ==> Some(value as int) == hex_digit(s@[0]) && value < 16,
            i == 2 ==> Some(value as int) == hex_prefix2(s@) && value < 256,
            i == 3 ==> Some(value as int) == hex_prefix3(s@) && value < 4096,
            i == 4 ==> Some(value as int) == hex4(s@) && value < 65536,
        decreases 4 - i,
    {
        if rest.is_empty() {
            return None;
        }
        let (c, tail) = split_first(rest);
        assert(c == s@[i as int]);
        match decode_digit(c) {
            None => {
                return None;
            },
            Some(d) => {
                value = value * 16 + d;
            },
        }
        assert(rest@.drop_first() =~= s@.skip(i + 1));
        rest = tail;
        i += 1;
    }
    Some((value, rest))
}

/// The number that the first two of the digits spell.
spec fn hex_prefix2(s: Seq<char>) -> Option<int> {
    match (hex_digit(s[0]), hex_digit(s[1])) {
        (Some(a), Some(b)) => Some(a * 16 + b),
        _ => None,
    }
}

/// The number that the first three of the digits spell.
spec fn hex_prefix3(s: Seq<char>) -> Option<int> {
    match (hex_prefix2(s), hex_digit(s[2])) {
        (Some(a), Some(b)) => Some(a * 16 + b),
        _ => None,
    }
}

/// The second half of a surrogate pair, if `s` starts with one, and what follows it.
fn decode_low_surrogate<'a>(s: &'a str) -> (r: Option<(u32, &'a str)>)
    ensures
        match r {
            Some((v, t)) => {
                &&& low_surrogate(s@) == Some(v as int)
                &&& t@ == s@.skip(6)
                &&& t.spec_bytes().len() < s.spec_bytes().len()
            },
            None => low_surrogate(s@) is None,
        },
{
    if s.is_empty() {
        return None;
    }
    let (c0, t0) = split_first(s);
    if c0 != '\\' || t0.is_empty() {
        return None;
    }
    let (c1, t1) = split_first(t0);
    if c1 != 'u' {
        return None;
    }
    assert(t1@ =~= s@.skip(2));
    match decode_hex4(t1) {
        Some((lo, t)) => {
            if 0xdc00 <= lo && lo <= 0xdfff {
                assert(t@ =~= s@.skip(6));
                Some((lo, t))
            } else {
                None
            }
        },
        None => None,
    }
}

/// Appends the character with scalar value `v`, if there is one.
fn push_scalar(out: &mut String, v: u32)
    requires
        v <= 0x10ffff,
    ensures
        final(out)@ == old(out)@ + scalar_text(v as int),
{
    match char::from_u32(v) {
        Some(c) => {
            out.push(c);
            assert(old(out)@.push(c) =~= old(out)@ + seq![c]);
        },
        None => {
            assert(old(out)@ =~= old(out)@ + seq![]);
        },
    }
}

/// Decodes the `\u` sequence whose digits should start at `s`: appends what it stands for,
/// or `\u` itself without them, and returns what follows it.
fn unescape_unicode<'a>(s: &'a str, out: &mut String) -> (r: &'a str)
    ensures
        r.spec_bytes().len() <= s.spec_bytes().len(),
        forall|e: Seq<char>|
            e.len() >= 2 && e[0] == '\\' && e[1] == 'u' && e.skip(2) == s@ ==> old(out)@
                + #[trigger] unescape(e) == final(out)@ + unescape(r@),
{
    let ghost before = out@;
    match decode_hex4(s) {
        None => {
            out.push('\\');
            out.push('u');
            assert forall|e: Seq<char>|
                e.len() >= 2 && e[0] == '\\' && e[1] == 'u' && e.skip(2) == s@ implies before
                + #[trigger] unescape(e) == out@ + unescape(s@) by {
                assert(before + (seq!['\\', 'u'] + unescape(s@)) =~= out@ + unescape(s@));
            }
            s
        },
        Some((hi, t)) => {
            if 0xd800 <= hi && hi <= 0xdbff {
                if let Some((lo, u)) = decode_low_surrogate(t) {
                    let v: u32 = 0x10000 + (hi - 0xd800) * 0x400 + (lo - 0xdc00);
                    push_scalar(out, v);
                    assert forall|e: Seq<char>|
                        e.len() >= 2 && e[0] == '\\' && e[1] == 'u' && e.skip(2) == s@ implies before
                        + #[trigger] unescape(e) == out@ + unescape(u@) by {
                        assert(e.skip(6) =~= t@);
                        assert(e.skip(12) =~= u@);
                        assert(before + (scalar_text(v as int) + unescape(u@)) =~= (before
                            + scalar_text(v as int)) + unescape(u@));
                    }
                    return u;
                }
            }
            push_scalar(out, hi);
            assert forall|e: Seq<char>|
                e.len() >= 2 && e[0] == '\\' && e[1] == 'u' && e.skip(2) == s@ implies before
                + #[trigger] unescape(e) == out@ + unescape(t@) by {
                assert(e.skip(6) =~= t@);
                assert(before + (scalar_text(hi as int) + unescape(t@)) =~= (before + scalar_text(
                    hi as int,
                )) + unescape(t@));
            }
            t
        },
    }
}

/// Decodes all JSON string escape sequences within `s` (the raw content between the
/// opening and closing quotes, with no surrounding quotes).  Clears `out` and writes the
/// decoded text into it.
///
/// Supported escapes: `\"` `\\` `\/` `\b` `\f` `\n` `\r` `\t` `\uXXXX` (including
/// surrogate pairs).  Unknown escapes are passed through verbatim.
pub fn unescape_str(s: &str, out: &mut String)
    ensures
        final(out)@ == unescape(s@),
{
    out.clear();
    let mut rest = s;
    assert(out@ + unescape(rest@) =~= unescape(s@));
    while !rest.is_empty()
        invariant
            out@ + unescape(rest@) == unescape(s@),
        decreases rest.spec_bytes().len(),
    {
        let ghost e = rest@;
        let ghost before = out@;
        let (c, tail) = split_first(rest);
        assert(tail@ =~= e.skip(1));
        if c != '\\' {
            out.push(c);
            assert(out@ + unescape(tail@) =~= before + (seq![c] + unescape(tail@)));
            rest = tail;
        } else if tail.is_empty() {
            assert(unescape(tail@) =~= seq![]);
            rest = tail;
        } else {
            let (d, after) = split_first(tail);
            assert(after@ =~= e.skip(2));
            if let Some(x) = decode_short(d) {
                out.push(x);
                assert(out@ + unescape(after@) =~= before + (seq![x] + unescape(after@)));
                rest = after;
            } else if d == 'u' {
                rest = unescape_unicode(after, out);
                assert(before + unescape(e) == out@ + unescape(rest@));
            } else {
                out.push('\\');
                out.push(d);
                assert(out@ + unescape(after@) =~= before + (seq!['\\', d] + unescape(after@)));
                rest = after;
            }
        }
    }
    assert(out@ + unescape(rest@) =~= out@);
}

/// Decoding leaves text without a backslash as it is.
pub proof fn lemma_unescape_plain(s: Seq<char>)
    requires
        !s.contains('\\'),
    ensures
        unescape(s) == s,
    decreases s.len(),
{
    if s.len() > 0 {
        let tail = s.skip(1);
        assert(s[0] != '\\');
        assert forall|i: int| 0 <= i < tail.len() implies tail[i] != '\\' by {
            assert(s[i + 1] != '\\');
        }
        lemma_unescape_plain(tail);
        assert(seq![s[0]] + tail =~= s);
    }
}

}
