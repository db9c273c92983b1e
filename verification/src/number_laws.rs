//! Which texts are numbers, byte by byte, and that integers are read back as they are
//! written.
use vstd::prelude::*;
use vstd::utf8::*;

use crate::de;
use crate::de::Visit;
use crate::json::Json;
use crate::json_ref;
use crate::number;
use crate::show;

verus! {

/// At least one byte, each of them one of `0` to `9`.
pub open spec fn digit_run(d: Seq<u8>) -> bool {
    d.len() > 0 && forall|k: int| 0 <= k < d.len() ==> 0x30 <= #[trigger] d[k] <= 0x39
}

/// `0`, or digits of which the first is not `0`.
pub open spec fn whole(i: Seq<u8>) -> bool {
    i == seq![0x30u8] || (digit_run(i) && i[0] != 0x30)
}

/// Nothing, or a point and digits.
pub open spec fn fraction(f: Seq<u8>) -> bool {
    f.len() == 0 || (f[0] == 0x2e && digit_run(f.skip(1)))
}

/// The texts that may stand for a sign: nothing and `-`.
pub open spec fn sign(m: Seq<u8>) -> bool {
    m.len() == 0 || m == seq![0x2du8]
}

/// Nothing, or `e` or `E`, then nothing or `+` or `-`, then digits.
pub open spec fn power(e: Seq<u8>) -> bool {
    ||| e.len() == 0
    ||| (e[0] == 0x65 || e[0] == 0x45) && digit_run(e.skip(1))
    ||| (e[0] == 0x65 || e[0] == 0x45) && e.len() > 1 && (e[1] == 0x2b || e[1] == 0x2d)
        && digit_run(e.skip(2))
}

proof fn lemma_run(d: Seq<u8>)
    ensures
        digit_run(d) == number::is_digits(d),
{
    if digit_run(d) {
        assert forall|k: int| 0 <= k < d.len() implies number::is_digit(#[trigger] d[k]) by {}
    }
    if number::is_digits(d) {
        assert forall|k: int| 0 <= k < d.len() implies 0x30 <= #[trigger] d[k] <= 0x39 by {
            assert(number::is_digit(d[k]));
        }
    }
}

proof fn lemma_parts(i: Seq<u8>, f: Seq<u8>, e: Seq<u8>)
    ensures
        whole(i) == number::is_integer_part(i),
        fraction(f) == number::is_fraction(f),
        power(e) == number::is_exponent(e),
{
    lemma_run(i);
    if whole(i) {
        assert(i[0] == 0x30 ==> i =~= seq![0x30u8]);
        assert(digit_run(i));
    }
    if number::is_integer_part(i) && i[0] == 0x30 {
        assert(i =~= seq![0x30u8]);
    }
    lemma_run(f.skip(1));
    lemma_run(e.skip(1));
    if e.len() > 1 {
        assert(e.skip(1)[0] == e[1]);
        assert(e.skip(1).skip(1) =~= e.skip(2));
        lemma_run(e.skip(2));
    }
}

/// A sign, a whole part, a fraction and a power, one behind the other, are a number.
pub proof fn law_number_from_parts(m: Seq<u8>, i: Seq<u8>, f: Seq<u8>, e: Seq<u8>)
    requires
        sign(m),
        whole(i),
        fraction(f),
        power(e),
    ensures
        number::is_number(m + i + f + e),
{
    lemma_parts(i, f, e);
    let u = i + f + e;
    let a = i.len() as int;
    let b = (i + f).len() as int;
    assert(u.subrange(0, a) =~= i);
    assert(u.subrange(a, b) =~= f);
    assert(u.subrange(b, u.len() as int) =~= e);
    assert(number::is_unsigned_number(u));
    let s = m + i + f + e;
    if m.len() == 0 {
        assert(s =~= u);
    } else {
        assert(s.skip(1) =~= u);
        assert(s[0] == 0x2d);
    }
}

/// Every number is a sign, a whole part, a fraction and a power, one behind the other: the
/// parts are returned.
pub proof fn law_number_has_parts(s: Seq<u8>) -> (r: (Seq<u8>, Seq<u8>, Seq<u8>, Seq<u8>))
    requires
        number::is_number(s),
    ensures
        sign(r.0),
        whole(r.1),
        fraction(r.2),
        power(r.3),
        s == r.0 + r.1 + r.2 + r.3,
{
    let unsigned = number::is_unsigned_number(s);
    let u = if unsigned {
        s
    } else {
        s.skip(1)
    };
    let m = if unsigned {
        Seq::<u8>::empty()
    } else {
        seq![0x2du8]
    };
    let (a, b) = choose|i: int, j: int|
        0 <= i <= j <= u.len() && number::is_integer_part(#[trigger] u.subrange(0, i))
            && number::is_fraction(#[trigger] u.subrange(i, j)) && number::is_exponent(
            u.subrange(j, u.len() as int),
        );
    let i = u.subrange(0, a);
    let f = u.subrange(a, b);
    let e = u.subrange(b, u.len() as int);
    lemma_parts(i, f, e);
    assert(s =~= m + i + f + e);
    (m, i, f, e)
}

/// `e` and `E` are interchangeable, wherever in a text one stands.
pub proof fn law_exponent_letter(a: Seq<u8>, d: Seq<u8>)
    ensures
        number::is_number(a + seq![0x65u8] + d) == number::is_number(a + seq![0x45u8] + d),
{
    if number::is_number(a + seq![0x65u8] + d) {
        lemma_swap_letter(a, 0x65, 0x45, d);
    }
    if number::is_number(a + seq![0x45u8] + d) {
        lemma_swap_letter(a, 0x45, 0x65, d);
    }
}

proof fn lemma_swap_letter(a: Seq<u8>, x: u8, y: u8, d: Seq<u8>)
    requires
        x == 0x65 || x == 0x45,
        y == 0x65 || y == 0x45,
        number::is_number(a + seq![x] + d),
    ensures
        number::is_number(a + seq![y] + d),
{
    let s = a + seq![x] + d;
    let (m, i, f, e) = law_number_has_parts(s);
    let p = a.len() as int;
    let q = (m + i + f).len() as int;
    assert(s[p] == x);
    // The letter stands at the start of the power: nowhere else can it.
    if p < m.len() {
        assert(s[p] == m[p]);
    } else if p < (m + i).len() {
        assert(s[p] == i[p - m.len()]);
    } else if p < q {
        let k = p - (m + i).len();
        assert(s[p] == f[k]);
        if k > 0 {
            assert(f[k] == f.skip(1)[k - 1]);
        }
    } else if p > q {
        let k = p - q;
        assert(s[p] == e[k]);
        assert(e[k] == e.skip(1)[k - 1]);
        if k > 1 {
            assert(e[k] == e.skip(2)[k - 2]);
        }
    }
    assert(p == q);
    assert(s[q] == e[0]);
    let z = seq![y] + e.skip(1);
    assert(z.skip(1) =~= e.skip(1));
    if e.len() > 1 {
        assert(z.skip(2) =~= e.skip(2));
        assert(z[1] == e[1]);
    }
    assert(power(z));
    law_number_from_parts(m, i, f, z);
    assert(a + seq![y] + d =~= m + i + f + z) by {
        let t = m + i + f + z;
        assert forall|k: int| 0 <= k < s.len() implies (a + seq![y] + d)[k] == t[k] by {
            if k != p {
                assert((a + seq![y] + d)[k] == s[k]);
                assert((m + i + f + e)[k] == s[k]);
                if k > q {
                    assert(z[k - q] == e[k - q]);
                }
            }
        }
    }
}

/// The digits of `n` in decimal, by repeated division by ten.
pub open spec fn decimal_bytes(n: nat) -> Seq<u8>
    decreases n,
{
    if n < 10 {
        seq![(48 + n) as u8]
    } else {
        decimal_bytes(n / 10) + seq![(48 + n % 10) as u8]
    }
}

proof fn lemma_decimal(n: nat)
    ensures
        digit_run(decimal_bytes(n)),
        number::is_digits(decimal_bytes(n)),
        number::digits_value(decimal_bytes(n)) == n,
        n > 0 ==> decimal_bytes(n)[0] != 0x30,
        n == 0 ==> decimal_bytes(n) == seq![0x30u8],
    decreases n,
{
    let d = decimal_bytes(n);
    if n >= 10 {
        lemma_decimal(n / 10);
        let h = decimal_bytes(n / 10);
        assert(d.drop_last() =~= h);
        assert(d[0] == h[0]);
        assert forall|k: int| 0 <= k < d.len() implies 0x30 <= #[trigger] d[k] <= 0x39 by {
            if k < h.len() {
                assert(d[k] == h[k]);
            }
        }
    } else {
        assert(number::digits_value(d.drop_last()) == 0);
    }
    lemma_run(d);
}

/// Every number from zero on is read back from its digits, with and without a sign
/// allowed, and its negative from the digits with a minus sign in front, where one is
/// allowed.
pub proof fn law_integer_read_back(n: nat)
    ensures
        number::integer(decimal_bytes(n), false) == Some(n as int),
        number::integer(decimal_bytes(n), true) == Some(n as int),
        number::integer(seq![0x2du8] + decimal_bytes(n), true) == Some(-n),
        number::integer(seq![0x2du8] + decimal_bytes(n), false) is None,
{
    lemma_decimal(n);
    let d = decimal_bytes(n);
    let s = seq![0x2du8] + d;
    assert(s.skip(1) =~= d);
    assert(s[0] == 0x2d);
    if number::is_digits(s) {
        assert(number::is_digit(s[0]));
    }
}

/// Digits without a leading zero are the digits of the number that they are read as, so two
/// such texts that differ are read as different numbers.
pub proof fn law_integer_canonical(d: Seq<u8>)
    requires
        whole(d),
    ensures
        number::integer(d, false) matches Some(n) && n >= 0 && decimal_bytes(n as nat) == d,
    decreases d.len(),
{
    lemma_parts(d, d, d);
    lemma_run(d);
    if d.len() == 1 {
        assert(number::digits_value(d.drop_last()) == 0);
        assert(number::is_digit(d[0]));
        assert(decimal_bytes((d[0] - 0x30) as nat) =~= d);
    } else {
        let h = d.drop_last();
        assert(number::is_digit(d[0]));
        assert(number::is_digit(d[d.len() - 1]));
        assert forall|k: int| 0 <= k < h.len() implies 0x30 <= #[trigger] h[k] <= 0x39 by {
            assert(number::is_digit(d[k]));
        }
        assert(h[0] == d[0]);
        law_integer_canonical(h);
        lemma_run(h);
        let a = number::digits_value(h);
        let n = number::digits_value(d);
        assert(n == a * 10 + (d.last() - 0x30));
        if a == 0 {
            assert(decimal_bytes(0)[0] == 0x30);
            assert(false);
        }
        assert(n / 10 == a);
        assert(n % 10 == d.last() - 0x30);
        assert(decimal_bytes(n as nat) =~= d);
    }
}

/// A text is read as an integer exactly if it is digits, or a plus sign and digits, or,
/// where one is allowed, a minus sign and digits: so none with a point, an `e` or any other
/// byte is.
pub proof fn law_integer_form(s: Seq<u8>, minus: bool)
    ensures
        number::integer(s, minus) is Some <==> {
            ||| digit_run(s)
            ||| s.len() > 0 && s[0] == 0x2b && digit_run(s.skip(1))
            ||| minus && s.len() > 0 && s[0] == 0x2d && digit_run(s.skip(1))
        },
        number::integer(s, minus) is Some ==> forall|k: int|
            0 < k < s.len() ==> 0x30 <= #[trigger] s[k] <= 0x39,
{
    lemma_run(s);
    lemma_run(s.skip(1));
    if number::integer(s, minus) is Some && !digit_run(s) {
        assert forall|k: int| 0 < k < s.len() implies 0x30 <= #[trigger] s[k] <= 0x39 by {
            assert(s.skip(1)[k - 1] == s[k]);
        }
    }
}

/// A plus sign makes no difference, nor does a leading zero.
pub proof fn law_integer_prefix(d: Seq<u8>, minus: bool)
    requires
        digit_run(d),
    ensures
        number::integer(seq![0x2bu8] + d, minus) == number::integer(d, minus),
        number::integer(seq![0x30u8] + d, minus) == number::integer(d, minus),
    decreases d.len(),
{
    lemma_run(d);
    let p = seq![0x2bu8] + d;
    assert(p.skip(1) =~= d);
    assert(p[0] == 0x2b);
    if number::is_digits(p) {
        assert(number::is_digit(p[0]));
    }
    let z = seq![0x30u8] + d;
    assert forall|k: int| 0 <= k < z.len() implies 0x30 <= #[trigger] z[k] <= 0x39 by {
        if k > 0 {
            assert(z[k] == d[k - 1]);
        }
    }
    lemma_run(z);
    lemma_zero(d);
}

proof fn lemma_zero(d: Seq<u8>)
    ensures
        number::digits_value(seq![0x30u8] + d) == number::digits_value(d),
    decreases d.len(),
{
    let z = seq![0x30u8] + d;
    if d.len() == 0 {
        assert(number::digits_value(z.drop_last()) == 0);
    } else {
        assert(z.drop_last() =~= seq![0x30u8] + d.drop_last());
        assert(z.last() == d.last());
        lemma_zero(d.drop_last());
    }
}

/// What fits the bounds stays, and nothing else does.
pub proof fn law_within(v: int, low: int, high: int)
    ensures
        number::within(Some(v), low, high) == (if low <= v && v <= high {
            Some(v)
        } else {
            None
        }),
        number::within(None, low, high) is None,
{
}

/// The text of the digits of `n` is encoded by those digits.
proof fn lemma_decimal_text(n: nat)
    ensures
        encode_utf8(show::decimal(n)) == decimal_bytes(n),
        forall|k: int| 0 <= k < show::decimal(n).len() ==> '0' <= #[trigger] show::decimal(n)[k] <= '9',
    decreases n,
{
    let t = show::decimal(n);
    let d = decimal_bytes(n);
    lemma_digit_chars(n);
    is_ascii_chars_encode_utf8(t);
    assert forall|k: int| 0 <= k < t.len() implies #[trigger] encode_utf8(t)[k] == d[k] by {
        assert(t[k] as u8 == encode_utf8(t)[k]);
    }
    assert(encode_utf8(t) =~= d);
}

proof fn lemma_digit_chars(n: nat)
    ensures
        show::decimal(n).len() == decimal_bytes(n).len(),
        forall|k: int|
            0 <= k < show::decimal(n).len() ==> '0' <= #[trigger] show::decimal(n)[k] <= '9'
                && show::decimal(n)[k] as u8 == decimal_bytes(n)[k],
        is_ascii_chars(show::decimal(n)),
    decreases n,
{
    let t = show::decimal(n);
    if n >= 10 {
        lemma_digit_chars(n / 10);
        let h = show::decimal(n / 10);
        assert forall|k: int| 0 <= k < t.len() implies '0' <= #[trigger] t[k] <= '9' && t[k] as u8
            == decimal_bytes(n)[k] by {
            if k < h.len() {
                assert(t[k] == h[k]);
            }
        }
    }
}

/// What a number is written as in decimal is read back as that number by every reader of
/// integers whose range it fits, and by no other: as an unsigned one up to
/// 18446744073709551615, and as a signed one up to 9223372036854775807.
pub proof fn law_natural_read_back(n: nat)
    ensures
        ({
            let j = Some(Json::Number(show::decimal(n)));
            &&& json_ref::unsigned(j) == (if n <= 0xffff_ffff_ffff_ffff {
                Some(n as int)
            } else {
                None
            })
            &&& json_ref::signed(j) == (if n <= 0x7fff_ffff_ffff_ffff {
                Some(n as int)
            } else {
                None
            })
            &&& de::as_u64(show::decimal(n)) == json_ref::unsigned(j)
            &&& de::as_i64(show::decimal(n)) == json_ref::signed(j)
        }),
{
    lemma_decimal_text(n);
    law_integer_read_back(n);
}

/// A negative number, written in decimal with a minus sign, is read back by the reader of
/// signed integers down to -9223372036854775808, and never by the other one.
pub proof fn law_negative_read_back(n: nat)
    ensures
        ({
            let t = seq!['-'] + show::decimal(n);
            let j = Some(Json::Number(t));
            &&& json_ref::unsigned(j) is None
            &&& json_ref::signed(j) == (if n <= 0x8000_0000_0000_0000 {
                Some(-n)
            } else {
                None
            })
            &&& de::as_u64(t) is None
            &&& de::as_i64(t) == json_ref::signed(j)
        }),
{
    let t = seq!['-'] + show::decimal(n);
    lemma_digit_chars(n);
    assert forall|k: int| 0 <= k < t.len() implies (#[trigger] t[k] as int) < 128 by {
        if k > 0 {
            assert(t[k] == show::decimal(n)[k - 1]);
        }
    }
    is_ascii_chars_encode_utf8(t);
    let b = seq![0x2du8] + decimal_bytes(n);
    assert forall|k: int| 0 <= k < t.len() implies #[trigger] encode_utf8(t)[k] == b[k] by {
        assert(t[k] as u8 == encode_utf8(t)[k]);
        if k > 0 {
            assert(t[k] == show::decimal(n)[k - 1]);
        }
    }
    assert(encode_utf8(t) =~= b);
    law_integer_read_back(n);
}

/// Only a number whose text is digits behind at most a sign is read as an integer, and
/// nothing but a number is.
pub proof fn law_integer_kinds(j: Option<Json>)
    ensures
        json_ref::unsigned(j) is Some || json_ref::signed(j) is Some ==> {
            &&& j matches Some(Json::Number(t))
            &&& forall|k: int|
                0 < k < encode_utf8(t).len() ==> 0x30 <= #[trigger] encode_utf8(t)[k] <= 0x39
        },
{
    if let Some(Json::Number(t)) = j {
        law_integer_form(encode_utf8(t), true);
        law_integer_form(encode_utf8(t), false);
    }
}

/// A number is offered to a deserializer as an unsigned integer if it is one of 64 bits,
/// else as a signed one if it is one, and else as its text.
pub proof fn law_number_offer<'t, 'src: 't>(visit: Visit<'t, 'src>, n: nat)
    ensures
        visit.offers_number(show::decimal(n)) && n <= 0xffff_ffff_ffff_ffff ==> (visit matches
            Visit::U64(v) && v == n),
        visit.offers_number(show::decimal(n)) && n > 0xffff_ffff_ffff_ffff ==> (visit matches
            Visit::Number(s) && s@ == show::decimal(n)),
        visit.offers_number(seq!['-'] + show::decimal(n)) && n <= 0x8000_0000_0000_0000 ==> (
        visit matches Visit::I64(v) && v == -n),
        visit.offers_number(seq!['-'] + show::decimal(n)) && n > 0x8000_0000_0000_0000 ==> (
        visit matches Visit::Number(s) && s@ == seq!['-'] + show::decimal(n)),
{
    law_natural_read_back(n);
    law_negative_read_back(n);
}

}
