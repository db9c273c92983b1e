//! JSON numbers: their grammar, and the integers that some of them spell.
use vstd::prelude::*;
use vstd::string::*;

verus! {

/// An ASCII digit.
pub open spec fn is_digit(c: u8) -> bool {
    0x30 <= c <= 0x39
}

/// Every byte of `s` is a digit, and there is at least one.
pub open spec fn is_digits(s: Seq<u8>) -> bool {
    s.len() > 0 && forall|i: int| 0 <= i < s.len() ==> is_digit(#[trigger] s[i])
}

/// `0`, or digits that do not start with `0`.
pub open spec fn is_integer_part(s: Seq<u8>) -> bool {
    is_digits(s) && (s[0] == 0x30 ==> s.len() == 1)
}

/// Nothing, or `.` and digits.
pub open spec fn is_fraction(s: Seq<u8>) -> bool {
    s.len() > 0 ==> s[0] == 0x2e && is_digits(s.skip(1))
}

/// `+`, `-` or nothing in front of digits.
pub open spec fn is_signed_digits(s: Seq<u8>) -> bool {
    is_digits(s) || (s.len() > 0 && (s[0] == 0x2b || s[0] == 0x2d) && is_digits(s.skip(1)))
}

/// Nothing, or `e` or `E` and an exponent.
pub open spec fn is_exponent(s: Seq<u8>) -> bool {
    s.len() > 0 ==> (s[0] == 0x65 || s[0] == 0x45) && is_signed_digits(s.skip(1))
}

/// An integer part, a fraction and an exponent, one behind the other.
pub open spec fn is_unsigned_number(s: Seq<u8>) -> bool {
    exists|i: int, j: int|
        0 <= i <= j <= s.len() && is_integer_part(#[trigger] s.subrange(0, i)) && is_fraction(
            #[trigger] s.subrange(i, j),
        ) && is_exponent(s.subrange(j, s.len() as int))
}

/// `[ "-" ] ( "0" | [1-9][0-9]* ) [ "." [0-9]+ ] [ ("e"|"E") ["+"|"-"] [0-9]+ ]`
pub open spec fn is_number(s: Seq<u8>) -> bool {
    is_unsigned_number(s) || (s.len() > 0 && s[0] == 0x2d && is_unsigned_number(s.skip(1)))
}

/// The end of the run of digits that starts at `i`.
fn digits_end(s: &[u8], i: usize) -> (r: usize)
    requires
        i <= s@.len(),
    ensures
        i <= r <= s@.len(),
        forall|k: int| i <= k < r ==> is_digit(#[trigger] s@[k]),
        r < s@.len() ==> !is_digit(s@[r as int]),
{
    let mut r: usize = i;
    while r < s.len() && 0x30 <= s[r] && s[r] <= 0x39
        invariant
            i <= r <= s@.len(),
            forall|k: int| i <= k < r ==> is_digit(#[trigger] s@[k]),
        decreases s@.len() - r,
    {
        r += 1;
    }
    r
}

/// A non-empty range of digits of `s` is the digits of a number part.
proof fn lemma_digits(s: Seq<u8>, i: int, j: int)
    requires
        0 <= i < j <= s.len(),
        forall|k: int| i <= k < j ==> is_digit(#[trigger] s[k]),
    ensures
        is_digits(s.subrange(i, j)),
{
    let d = s.subrange(i, j);
    assert forall|k: int| 0 <= k < d.len() implies is_digit(#[trigger] d[k]) by {
        assert(d[k] == s[i + k]);
    }
}

/// The digits of a number part are digits of `s`.
proof fn lemma_digits_inside(s: Seq<u8>, i: int, j: int)
    requires
        0 <= i <= j <= s.len(),
        is_digits(s.subrange(i, j)),
    ensures
        i < j,
        forall|k: int| i <= k < j ==> is_digit(#[trigger] s[k]),
{
    let d = s.subrange(i, j);
    assert forall|k: int| i <= k < j implies is_digit(#[trigger] s[k]) by {
        assert(d[k - i] == s[k]);
    }
}

/// Whether what starts at `start` in `s` is a number without a sign.
fn is_valid_unsigned_number(s: &[u8], start: usize) -> (r: bool)
    requires
        start <= s@.len(),
    ensures
        r == is_unsigned_number(s@.subrange(start as int, s@.len() as int)),
{
    let n: usize = s.len();
    let ghost b = s@;
    let ghost t = b.subrange(start as int, n as int);
    // Integer part.
    let p: usize = digits_end(s, start);
    proof {
        assert forall|i: int, j: int|
            0 <= i <= j <= t.len() && is_integer_part(#[trigger] t.subrange(0, i)) && is_fraction(
                #[trigger] t.subrange(i, j),
            ) && is_exponent(t.subrange(j, t.len() as int)) implies i == p - start && (i > 1
            ==> t[0] != 0x30) by {
            lemma_digits_inside(t, 0, i);
            assert(t.subrange(0, i)[0] == t[0]);
            if i < p - start {
                assert(is_digit(b[start + i]));
                assert(t[i] == b[start + i]);
                if i < j {
                    assert(t.subrange(i, j)[0] == t[i]);
                } else {
                    assert(t.subrange(j, t.len() as int)[0] == t[i]);
                }
            }
            if i > p - start {
                assert(is_digit(t[p - start]));
                assert(t[p - start] == b[p as int]);
            }
        }
    }
    if p == start || (s[start] == 0x30 && p > start + 1) {
        return false;
    }
    proof {
        lemma_digits(t, 0, p - start);
        assert(is_integer_part(t.subrange(0, p - start)));
    }
    // Optional fraction.
    let q: usize = if p < n && s[p] == 0x2e {
        digits_end(s, p + 1)
    } else {
        p
    };
    proof {
        assert forall|i: int, j: int|
            0 <= i <= j <= t.len() && is_integer_part(#[trigger] t.subrange(0, i)) && is_fraction(
                #[trigger] t.subrange(i, j),
            ) && is_exponent(t.subrange(j, t.len() as int)) implies i == p - start && j == q
            - start && (q > p ==> q > p + 1) by {
            let f = t.subrange(i, j);
            let e = t.subrange(j, t.len() as int);
            if i < t.len() {
                assert(t[i] == b[p as int]);
            }
            if i < j {
                assert(f[0] == t[i]);
                assert(f.skip(1) =~= t.subrange(i + 1, j));
                lemma_digits_inside(t, i + 1, j);
                if j < q - start {
                    assert(is_digit(b[start + j]));
                    assert(e[0] == t[j]);
                }
                if j > q - start {
                    assert(is_digit(t[q - start]));
                    assert(t[q - start] == b[q as int]);
                }
            } else if j < t.len() {
                assert(e[0] == t[j]);
            }
        }
    }
    if q > p && q == p + 1 {
        return false;
    }
    proof {
        let f = t.subrange(p - start, q - start);
        if q > p {
            lemma_digits(t, p + 1 - start, q - start);
            assert(f.skip(1) =~= t.subrange(p + 1 - start, q - start));
            assert(f[0] == b[p as int]);
        }
        assert(is_fraction(f));
    }
    // Optional exponent.
    let ghost e = t.subrange(q - start, t.len() as int);
    let r: bool = if q == n {
        true
    } else if s[q] == 0x65 || s[q] == 0x45 {
        let d: usize = if q + 1 < n && (s[q + 1] == 0x2b || s[q + 1] == 0x2d) {
            q + 2
        } else {
            q + 1
        };
        let end: usize = digits_end(s, d);
        proof {
            let x = e.skip(1);
            assert(e[0] == b[q as int]);
            assert(x =~= b.subrange(q + 1, n as int));
            if q + 1 < n {
                assert(x[0] == b[q + 1]);
                assert(x.skip(1) =~= b.subrange(q + 2, n as int));
            }
            if is_digits(x) {
                lemma_digits_inside(b, q + 1, n as int);
                assert(is_digit(b[q + 1]));
            } else if x.len() > 0 && (x[0] == 0x2b || x[0] == 0x2d) && is_digits(x.skip(1)) {
                lemma_digits_inside(b, q + 2, n as int);
            }
            if end == n && end > d {
                lemma_digits(b, d as int, n as int);
            }
            assert(is_exponent(e) <==> end == n && end > d);
        }
        end == n && end > d
    } else {
        assert(e[0] == b[q as int]);
        false
    };
    assert(r == is_exponent(e));
    r
}

/// Whether `s` is a JSON number, from its first byte to its last.
pub fn is_valid_json_number(s: &[u8]) -> (r: bool)
    ensures
        r == is_number(s@),
{
    let n: usize = s.len();
    let ghost b = s@;
    assert(b.subrange(0, n as int) =~= b);
    if n > 0 && s[0] == 0x2d {
        proof {
            assert(b.skip(1) =~= b.subrange(1, n as int));
            if is_unsigned_number(b) {
                let (i, j) = choose|i: int, j: int|
                    0 <= i <= j <= b.len() && is_integer_part(#[trigger] b.subrange(0, i))
                        && is_fraction(#[trigger] b.subrange(i, j)) && is_exponent(
                        b.subrange(j, b.len() as int),
                    );
                lemma_digits_inside(b, 0, i);
                assert(is_digit(b[0]));
            }
        }
        is_valid_unsigned_number(s, 1)
    } else {
        is_valid_unsigned_number(s, 0)
    }
}

/// A number starts with a digit or a minus sign.
pub proof fn lemma_number_start(s: Seq<u8>)
    requires
        is_number(s),
    ensures
        s.len() > 0,
        is_digit(s[0]) || s[0] == 0x2d,
{
    if is_unsigned_number(s) {
        let (i, j) = choose|i: int, j: int|
            0 <= i <= j <= s.len() && is_integer_part(#[trigger] s.subrange(0, i)) && is_fraction(
                #[trigger] s.subrange(i, j),
            ) && is_exponent(s.subrange(j, s.len() as int));
        lemma_digits_inside(s, 0, i);
        assert(is_digit(s[0]));
    }
}

/// The number that the digits `s` spell in decimal.
pub open spec fn digits_value(s: Seq<u8>) -> int
    decreases s.len(),
{
    if s.len() == 0 {
        0
    } else {
        digits_value(s.drop_last()) * 10 + (s.last() - 0x30)
    }
}

/// The integer that `s` spells in decimal: digits, with a plus sign before them or not,
/// or, where that is allowed, with a minus sign.
pub open spec fn integer(s: Seq<u8>, minus_allowed: bool) -> Option<int> {
    if is_digits(s) {
        Some(digits_value(s))
    } else if s.len() > 0 && s[0] == 0x2b && is_digits(s.skip(1)) {
        Some(digits_value(s.skip(1)))
    } else if minus_allowed && s.len() > 0 && s[0] == 0x2d && is_digits(s.skip(1)) {
        Some(-digits_value(s.skip(1)))
    } else {
        None
    }
}

/// `v` if it lies between `low` and `high`.
pub open spec fn within(v: Option<int>, low: int, high: int) -> Option<int> {
    match v {
        Some(x) => if low <= x <= high {
            v
        } else {
            None
        },
        None => None,
    }
}

/// The number that the digits from `start` on spell, or some number above `u64::MAX` if
/// they spell one; nothing if they are no digits.
fn parse_digits(s: &[u8], start: usize) -> (r: Option<u128>)
    requires
        start <= s@.len(),
    ensures
        ({
            let d = s@.subrange(start as int, s@.len() as int);
            match r {
                Some(v) => is_digits(d) && (if v <= u64::MAX {
                    v == digits_value(d)
                } else {
                    digits_value(d) > u64::MAX
                }),
                None => !is_digits(d),
            }
        }),
{
    let ghost d = s@.subrange(start as int, s@.len() as int);
    if start == s.len() {
        return None;
    }
    let mut v: u128 = 0;
    let mut i: usize = start;
    assert(d.take(0) =~= Seq::<u8>::empty());
    while i < s.len()
        invariant
            start <= i <= s@.len(),
            d == s@.subrange(start as int, s@.len() as int),
            forall|k: int| 0 <= k < i - start ==> is_digit(#[trigger] d[k]),
            v <= u64::MAX ==> v == digits_value(d.take(i - start)),
            v > u64::MAX ==> digits_value(d.take(i - start)) > u64::MAX,
        decreases s@.len() - i,
    {
        let c: u8 = s[i];
        assert(d[i - start] == c);
        if c < 0x30 || c > 0x39 {
            return None;
        }
        assert(d.take(i + 1 - start).drop_last() =~= d.take(i - start));
        if v <= u64::MAX as u128 {
            v = v * 10 + (c - 0x30) as u128;
        }
        i += 1;
    }
    assert(d.take(s@.len() - start) =~= d);
    Some(v)
}

/// Reads `s` as an integer of type `u64`; nothing if it is none or out of range.
pub fn parse_u64(s: &str) -> (r: Option<u64>)
    ensures
        match r {
            Some(v) => within(integer(s.spec_bytes(), false), 0, u64::MAX as int) == Some(v as int),
            None => within(integer(s.spec_bytes(), false), 0, u64::MAX as int) is None,
        },
{
    let b = s.as_bytes();
    let start: usize = if b.len() > 0 && b[0] == 0x2b {
        1
    } else {
        0
    };
    proof {
        lemma_sign(b@);
    }
    match parse_digits(b, start) {
        Some(v) => if v <= u64::MAX as u128 {
            Some(v as u64)
        } else {
            None
        },
        None => None,
    }
}

/// Reads `s` as an integer of type `i64`; nothing if it is none or out of range.
pub fn parse_i64(s: &str) -> (r: Option<i64>)
    ensures
        match r {
            Some(v) => within(integer(s.spec_bytes(), true), i64::MIN as int, i64::MAX as int)
                == Some(v as int),
            None => within(integer(s.spec_bytes(), true), i64::MIN as int, i64::MAX as int) is None,
        },
{
    let b = s.as_bytes();
    let minus: bool = b.len() > 0 && b[0] == 0x2d;
    let start: usize = if minus || (b.len() > 0 && b[0] == 0x2b) {
        1
    } else {
        0
    };
    proof {
        lemma_sign(b@);
    }
    match parse_digits(b, start) {
        Some(v) => if minus {
            if v <= 0x8000_0000_0000_0000 {
                Some((-(v as i128)) as i64)
            } else {
                None
            }
        } else if v <= 0x7fff_ffff_ffff_ffff {
            Some(v as i64)
        } else {
            None
        },
        None => None,
    }
}

/// What starts with a sign is no run of digits.
proof fn lemma_sign(s: Seq<u8>)
    ensures
        s.subrange(0, s.len() as int) == s,
        s.len() > 0 ==> s.subrange(1, s.len() as int) == s.skip(1),
        s.len() > 0 && !is_digit(s[0]) ==> !is_digits(s),
        forall|i: int|
            0 <= i <= s.len() ==> is_digits(#[trigger] s.subrange(i, s.len() as int))
                ==> digits_value(s.subrange(i, s.len() as int)) >= 0,
{
    assert(s.subrange(0, s.len() as int) =~= s);
    if s.len() > 0 {
        assert(s.subrange(1, s.len() as int) =~= s.skip(1));
    }
    assert forall|i: int|
        0 <= i <= s.len() && is_digits(#[trigger] s.subrange(i, s.len() as int)) implies digits_value(
        s.subrange(i, s.len() as int),
    ) >= 0 by {
        lemma_digits_value(s.subrange(i, s.len() as int));
    }
}

/// Digits spell no negative number.
proof fn lemma_digits_value(s: Seq<u8>)
    requires
        forall|i: int| 0 <= i < s.len() ==> is_digit(#[trigger] s[i]),
    ensures
        digits_value(s) >= 0,
    decreases s.len(),
{
    if s.len() > 0 {
        let t = s.drop_last();
        assert forall|i: int| 0 <= i < t.len() implies is_digit(#[trigger] t[i]) by {
            assert(t[i] == s[i]);
        }
        lemma_digits_value(t);
        assert(is_digit(s[s.len() - 1]));
    }
}

/// A byte that can occur in a number.
pub open spec fn is_number_byte(c: u8) -> bool {
    is_digit(c) || c == 0x2b || c == 0x2d || c == 0x2e || c == 0x65 || c == 0x45
}

/// A number is made of digits, signs, a point and the letter `e`.
pub proof fn lemma_number_bytes(s: Seq<u8>)
    requires
        is_number(s),
    ensures
        forall|k: int| 0 <= k < s.len() ==> is_number_byte(#[trigger] s[k]),
{
    if is_unsigned_number(s) {
        lemma_unsigned_bytes(s);
    } else {
        let t = s.skip(1);
        lemma_unsigned_bytes(t);
        assert forall|k: int| 0 <= k < s.len() implies is_number_byte(#[trigger] s[k]) by {
            if k > 0 {
                assert(t[k - 1] == s[k]);
            }
        }
    }
}

proof fn lemma_unsigned_bytes(s: Seq<u8>)
    requires
        is_unsigned_number(s),
    ensures
        forall|k: int| 0 <= k < s.len() ==> is_number_byte(#[trigger] s[k]),
{
    let n = s.len() as int;
    let (i, j) = choose|i: int, j: int|
        0 <= i <= j <= s.len() && is_integer_part(#[trigger] s.subrange(0, i)) && is_fraction(
            #[trigger] s.subrange(i, j),
        ) && is_exponent(s.subrange(j, s.len() as int));
    lemma_digits_inside(s, 0, i);
    if i < j {
        assert(s.subrange(i, j)[0] == s[i]);
        assert(s.subrange(i, j).skip(1) =~= s.subrange(i + 1, j));
        lemma_digits_inside(s, i + 1, j);
    }
    if j < n {
        let e = s.subrange(j, n);
        assert(e[0] == s[j]);
        assert(e.skip(1) =~= s.subrange(j + 1, n));
        if is_digits(e.skip(1)) {
            lemma_digits_inside(s, j + 1, n);
        } else {
            assert(e.skip(1)[0] == s[j + 1]);
            assert(e.skip(1).skip(1) =~= s.subrange(j + 2, n));
            lemma_digits_inside(s, j + 2, n);
        }
    }
}

}
