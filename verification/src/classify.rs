//! Classification of source bytes, up to 64 at a time, into bit masks.
use vstd::prelude::*;

use crate::grammar;
use crate::grammar::{BACKSLASH, COMMA, QUOTE, RIGHT_BRACE, RIGHT_BRACKET};

verus! {

/// Bit `n` of `x`.
pub open spec fn bit(x: u64, n: u64) -> bool {
    (x >> n) & 1 == 1
}

/// The byte of `v` at bits `8 * k` to `8 * k + 7`.
pub open spec fn lane(v: u64, k: u64) -> u64 {
    (v >> (8 * k) as u64) & 0xff
}

/// Whether the flag bit of lane `k`, its top bit, is set in `v`.
pub open spec fn flag(v: u64, k: u64) -> bool {
    bit(v, (8 * k + 7) as u64)
}

/// Collects the top bit of each of the eight bytes into the low eight bits.
fn movemask8(v: u64) -> (m: u64)
    ensures
        m < 256,
        forall|k: u64| k < 8 ==> bit(m, k) == flag(v, k),
{
    let m: u64 = (v & 0x8080_8080_8080_8080).wrapping_mul(0x0002_0408_1020_4081) >> 56;
    proof {
        let w: u64 = v & 0x8080_8080_8080_8080;
        assert(m == (((w * 0x0002_0408_1020_4081u64) % 0x1_0000_0000_0000_0000) as u64) >> 56);
        assert(m < 256) by (bit_vector)
            requires
                m == (((w * 0x0002_0408_1020_4081u64) % 0x1_0000_0000_0000_0000) as u64) >> 56,
        ;
        assert forall|k: u64| k < 8 implies bit(m, k) == flag(v, k) by {
            assert(((m >> k) & 1 == 1) == ((v >> ((8 * k + 7) as u64)) & 1 == 1)) by (bit_vector)
                requires
                    k < 8,
                    w == v & 0x8080_8080_8080_8080,
                    m == (((w * 0x0002_0408_1020_4081u64) % 0x1_0000_0000_0000_0000) as u64) >> 56,
            ;
        }
    }
    m
}


/// Sets the top bit of each byte of `v` that is at most `0x20`, and no other bit.
///
/// Adding `0x5f` to the low seven bits of a byte reaches bit 7 exactly when they
/// are at least `0x21`; or-ing the byte itself back in excludes bytes from `0x80`.
fn whitespace_flags(v: u64) -> (w: u64)
    ensures
        forall|k: u64| k < 8 ==> flag(w, k) == (lane(v, k) <= 0x20),
{
    let masked: u64 = v & 0x7f7f_7f7f_7f7f_7f7f;
    assert(masked <= 0x7f7f_7f7f_7f7f_7f7f) by (bit_vector)
        requires
            masked == v & 0x7f7f_7f7f_7f7f_7f7f,
    ;
    let sum: u64 = masked + 0x5f5f_5f5f_5f5f_5f5f;
    let w: u64 = !(sum | v) & 0x8080_8080_8080_8080;
    assert forall|k: u64| k < 8 implies flag(w, k) == (lane(v, k) <= 0x20) by {
        assert(((w >> ((8 * k + 7) as u64)) & 1 == 1) == ((v >> ((8 * k) as u64)) & 0xff <= 0x20))
            by (bit_vector)
            requires
                k < 8,
                masked == v & 0x7f7f_7f7f_7f7f_7f7f,
                sum == masked + 0x5f5f_5f5f_5f5f_5f5f,
                w == !(sum | v) & 0x8080_8080_8080_8080,
        ;
    }
    w
}

/// Sets the top bit of each zero byte of `v`, and no other bit.
///
/// The addition never carries from one byte into the next, so a zero byte leaves
/// its neighbours' flags alone.
fn zero_flags(v: u64) -> (z: u64)
    ensures
        forall|k: u64| k < 8 ==> flag(z, k) == (lane(v, k) == 0),
{
    let masked: u64 = v & 0x7f7f_7f7f_7f7f_7f7f;
    assert(masked <= 0x7f7f_7f7f_7f7f_7f7f) by (bit_vector)
        requires
            masked == v & 0x7f7f_7f7f_7f7f_7f7f,
    ;
    let sum: u64 = masked + 0x7f7f_7f7f_7f7f_7f7f;
    let z: u64 = !(sum | v) & 0x8080_8080_8080_8080;
    assert forall|k: u64| k < 8 implies flag(z, k) == (lane(v, k) == 0) by {
        assert(((z >> ((8 * k + 7) as u64)) & 1 == 1) == ((v >> ((8 * k) as u64)) & 0xff == 0))
            by (bit_vector)
            requires
                k < 8,
                masked == v & 0x7f7f_7f7f_7f7f_7f7f,
                sum == masked + 0x7f7f_7f7f_7f7f_7f7f,
                z == !(sum | v) & 0x8080_8080_8080_8080,
        ;
    }
    z
}

/// Sets the top bit of each byte of `v` that equals `b`, and no other bit.
fn eq_flags(v: u64, b: u8) -> (e: u64)
    ensures
        forall|k: u64| k < 8 ==> flag(e, k) == (lane(v, k) == b),
{
    assert(b * 0x0101_0101_0101_0101u64 <= 0xffff_ffff_ffff_ffffu64) by (bit_vector);
    let all: u64 = b as u64 * 0x0101_0101_0101_0101;
    let x: u64 = v ^ all;
    let e: u64 = zero_flags(x);
    assert forall|k: u64| k < 8 implies flag(e, k) == (lane(v, k) == b) by {
        assert(((x >> ((8 * k) as u64)) & 0xff == 0) == ((v >> ((8 * k) as u64)) & 0xff == b))
            by (bit_vector)
            requires
                k < 8,
                all == b * 0x0101_0101_0101_0101u64,
                x == v ^ all,
        ;
    }
    e
}

/// The eight bytes of `buf` from `at` on as one word, the first byte lowest.
fn load_word(buf: &[u8; 64], at: usize) -> (v: u64)
    requires
        at + 8 <= 64,
    ensures
        forall|k: u64| k < 8 ==> lane(v, k) == buf@[at + k],
{
    let b0: u64 = buf[at] as u64;
    let b1: u64 = buf[at + 1] as u64;
    let b2: u64 = buf[at + 2] as u64;
    let b3: u64 = buf[at + 3] as u64;
    let b4: u64 = buf[at + 4] as u64;
    let b5: u64 = buf[at + 5] as u64;
    let b6: u64 = buf[at + 6] as u64;
    let b7: u64 = buf[at + 7] as u64;
    let v: u64 = b0 | (b1 << 8) | (b2 << 16) | (b3 << 24) | (b4 << 32) | (b5 << 40) | (b6 << 48)
        | (b7 << 56);
    assert forall|k: u64| k < 8 implies lane(v, k) == buf@[at + k] by {
        assert((v >> ((8 * k) as u64)) & 0xff == (if k == 0 {
            b0
        } else if k == 1 {
            b1
        } else if k == 2 {
            b2
        } else if k == 3 {
            b3
        } else if k == 4 {
            b4
        } else if k == 5 {
            b5
        } else if k == 6 {
            b6
        } else {
            b7
        })) by (bit_vector)
            requires
                k < 8,
                b0 < 256,
                b1 < 256,
                b2 < 256,
                b3 < 256,
                b4 < 256,
                b5 < 256,
                b6 < 256,
                b7 < 256,
                v == b0 | (b1 << 8) | (b2 << 16) | (b3 << 24) | (b4 << 32) | (b5 << 40) | (b6
                    << 48) | (b7 << 56),
        ;
    }
    v
}

/// Puts the eight bits of `m` at bits `8 * i` to `8 * i + 7` of `acc`, which are clear.
fn place(acc: u64, m: u64, i: u64) -> (r: u64)
    requires
        i < 8,
        m < 256,
        forall|n: u64| 8 * i <= n < 64 ==> !bit(acc, n),
    ensures
        forall|n: u64| n < 8 * i ==> bit(r, n) == bit(acc, n),
        forall|n: u64| 8 * i <= n < 8 * i + 8 ==> bit(r, n) == bit(m, (n - 8 * i) as u64),
        forall|n: u64| 8 * i + 8 <= n < 64 ==> !bit(r, n),
{
    let r: u64 = acc | (m << (8 * i));
    assert forall|n: u64| n < 64 implies bit(r, n) == (bit(acc, n) || (8 * i <= n < 8 * i + 8 && bit(
        m,
        (n - 8 * i) as u64,
    ))) by {
        assert(((r >> n) & 1 == 1) == ((acc >> n) & 1 == 1 || (8 * i <= n && n < 8 * i + 8 && (m
            >> ((n - 8 * i) as u64)) & 1 == 1))) by (bit_vector)
            requires
                n < 64,
                i < 8,
                m < 256,
                r == acc | (m << ((8 * i) as u64)),
        ;
    }
    r
}

/// Per-chunk classification masks.
///
/// Bit `n` of a mask speaks of byte `n` of the chunk.  Bits past the end of the
/// chunk read as whitespace.
#[derive(Debug, PartialEq, Eq, Structural)]
pub struct ByteState {
    /// The byte is whitespace (at most `0x20`).
    pub whitespace: u64,
    /// The byte is `"`.
    pub quotes: u64,
    /// The byte is `\`.
    pub backslashes: u64,
    /// The byte ends an atom: whitespace, `,`, `}` or `]`.
    pub delimiters: u64,
}

impl ByteState {
    /// Bit `n` of the masks describes byte `n` of `chunk`, which past the end counts as
    /// whitespace.
    pub open spec fn describes_byte(&self, chunk: Seq<u8>, n: u64) -> bool {
        let inside = n < chunk.len();
        let c = chunk[n as int];
        &&& bit(self.whitespace, n) == (!inside || grammar::is_whitespace(c))
        &&& bit(self.quotes, n) == (inside && c == QUOTE)
        &&& bit(self.backslashes, n) == (inside && c == BACKSLASH)
        &&& bit(self.delimiters, n) == (!inside || grammar::is_delimiter(c))
    }

    /// The masks describe the bytes of `chunk`, exactly, in all their 64 bits.
    pub open spec fn describes(&self, chunk: Seq<u8>) -> bool {
        forall|n: u64| n < 64 ==> #[trigger] self.describes_byte(chunk, n)
    }
}

/// Classifies up to 64 bytes in software, eight `u64` words of eight bytes each.
///
/// * **Whitespace**: an addition per byte that reaches the top bit exactly when the
///   byte is above `0x20`.
/// * **Byte equality**: XOR with the byte repeated eight times, then an exact
///   test for zero bytes.
/// * **Movemask**: a multiplication gathers the top bits of the eight bytes.
pub fn classify_u64(src: &[u8]) -> (r: ByteState)
    requires
        0 < src@.len() <= 64,
    ensures
        r.describes(src@),
{
    let mut buf: [u8; 64] = [0u8; 64];
    let mut j: usize = 0;
    while j < src.len()
        invariant
            j <= src@.len() <= 64,
            buf@.len() == 64,
            forall|n: int| 0 <= n < j ==> buf@[n] == src@[n],
            forall|n: int| j <= n < 64 ==> buf@[n] == 0,
        decreases src@.len() - j,
    {
        buf[j] = src[j];
        j += 1;
    }
    let mut whitespace: u64 = 0;
    let mut quotes: u64 = 0;
    let mut backslashes: u64 = 0;
    let mut delimiters: u64 = 0;
    assert forall|n: u64| n < 64 implies !bit(0, n) by {
        assert((0u64 >> n) & 1 != 1) by (bit_vector);
    }
    let mut i: u64 = 0;
    while i < 8
        invariant
            i <= 8,
            buf@.len() == 64,
            forall|n: u64| 8 * i <= n < 64 ==> !bit(whitespace, n),
            forall|n: u64| 8 * i <= n < 64 ==> !bit(quotes, n),
            forall|n: u64| 8 * i <= n < 64 ==> !bit(backslashes, n),
            forall|n: u64| 8 * i <= n < 64 ==> !bit(delimiters, n),
            forall|n: u64| n < 8 * i ==> bit(whitespace, n) == grammar::is_whitespace(buf@[n as int]),
            forall|n: u64| n < 8 * i ==> bit(quotes, n) == (buf@[n as int] == QUOTE),
            forall|n: u64| n < 8 * i ==> bit(backslashes, n) == (buf@[n as int] == BACKSLASH),
            forall|n: u64| n < 8 * i ==> bit(delimiters, n) == grammar::is_delimiter(buf@[n as int]),
        decreases 8 - i,
    {
        let v: u64 = load_word(&buf, 8 * i as usize);
        let w: u64 = whitespace_flags(v);
        let q: u64 = eq_flags(v, QUOTE);
        let b: u64 = eq_flags(v, BACKSLASH);
        let commas: u64 = eq_flags(v, COMMA);
        let braces: u64 = eq_flags(v, RIGHT_BRACE);
        let brackets: u64 = eq_flags(v, RIGHT_BRACKET);
        let d: u64 = w | commas | braces | brackets;
        assert forall|k: u64| k < 8 implies flag(d, k) == grammar::is_delimiter(buf@[8 * i + k]) by {
            assert(lane(v, k) == buf@[8 * i + k]);
            assert(((d >> ((8 * k + 7) as u64)) & 1 == 1) == ((w >> ((8 * k + 7) as u64)) & 1 == 1
                || (commas >> ((8 * k + 7) as u64)) & 1 == 1 || (braces >> ((8 * k + 7) as u64)) & 1
                == 1 || (brackets >> ((8 * k + 7) as u64)) & 1 == 1)) by (bit_vector)
                requires
                    k < 8,
                    d == w | commas | braces | brackets,
            ;
            assert(flag(w, k) == (lane(v, k) <= 0x20));
        }
        let mw: u64 = movemask8(w);
        let mq: u64 = movemask8(q);
        let mb: u64 = movemask8(b);
        let md: u64 = movemask8(d);
        assert forall|k: u64| k < 8 implies {
            &&& #[trigger] bit(mw, k) == grammar::is_whitespace(buf@[8 * i + k])
            &&& bit(mq, k) == (buf@[8 * i + k] == QUOTE)
            &&& bit(mb, k) == (buf@[8 * i + k] == BACKSLASH)
            &&& bit(md, k) == grammar::is_delimiter(buf@[8 * i + k])
        } by {
            assert(lane(v, k) == buf@[8 * i + k]);
            assert(flag(w, k) == (lane(v, k) <= 0x20));
            assert(flag(q, k) == (lane(v, k) == QUOTE));
            assert(flag(b, k) == (lane(v, k) == BACKSLASH));
        }
        let ghost old_w = whitespace;
        let ghost old_q = quotes;
        let ghost old_b = backslashes;
        let ghost old_d = delimiters;
        whitespace = place(whitespace, mw, i);
        quotes = place(quotes, mq, i);
        backslashes = place(backslashes, mb, i);
        delimiters = place(delimiters, md, i);
        assert forall|n: u64| n < 8 * i + 8 implies {
            &&& #[trigger] bit(whitespace, n) == grammar::is_whitespace(buf@[n as int])
            &&& bit(quotes, n) == (buf@[n as int] == QUOTE)
            &&& bit(backslashes, n) == (buf@[n as int] == BACKSLASH)
            &&& bit(delimiters, n) == grammar::is_delimiter(buf@[n as int])
        } by {
            if n < 8 * i {
                assert(bit(old_w, n) == grammar::is_whitespace(buf@[n as int]));
            } else {
                let k: u64 = (n - 8 * i) as u64;
                assert(bit(mw, k) == grammar::is_whitespace(buf@[8 * i + k]));
            }
        }
        i += 1;
    }
    let r = ByteState { whitespace, quotes, backslashes, delimiters };
    assert forall|n: u64| n < 64 implies #[trigger] r.describes_byte(src@, n) by {
        assert(bit(whitespace, n) == grammar::is_whitespace(buf@[n as int]));
        assert(bit(quotes, n) == (buf@[n as int] == QUOTE));
        assert(bit(backslashes, n) == (buf@[n as int] == BACKSLASH));
        assert(bit(delimiters, n) == grammar::is_delimiter(buf@[n as int]));
    }
    r
}

/// What whitespace and what a delimiter is, of every byte.
pub proof fn law_byte_classes(c: u8)
    ensures
        grammar::is_whitespace(c) <==> c <= 32,
        grammar::is_delimiter(c) <==> c <= 32 || c == 44 || c == 93 || c == 125,
{
}

/// Masks that describe a chunk tell of every byte whether it is at most `0x20`, a quote, a
/// backslash, or a byte that ends an atom: that is one at most `0x20`, a comma, a closing
/// bracket or a closing brace.  Behind the end there is whitespace.
pub proof fn law_masks(r: ByteState, chunk: Seq<u8>, n: u64)
    requires
        r.describes(chunk),
        n < 64,
    ensures
        n < chunk.len() ==> {
            let c = chunk[n as int];
            &&& ((r.whitespace >> n) & 1 == 1 <==> c <= 32)
            &&& ((r.quotes >> n) & 1 == 1 <==> c == 34)
            &&& ((r.backslashes >> n) & 1 == 1 <==> c == 92)
            &&& ((r.delimiters >> n) & 1 == 1 <==> c <= 32 || c == 44 || c == 93 || c == 125)
        },
        n >= chunk.len() ==> {
            &&& (r.whitespace >> n) & 1 == 1
            &&& (r.quotes >> n) & 1 != 1
            &&& (r.backslashes >> n) & 1 != 1
            &&& (r.delimiters >> n) & 1 == 1
        },
{
    assert(r.describes_byte(chunk, n));
}

}
