//! The parser: a state machine over chunks of 64 classified bytes.
use vstd::prelude::*;
use vstd::string::*;
use vstd::utf8::*;

use crate::classify;
use crate::classify::{classify_u64, ByteState};
use crate::grammar;
use crate::grammar::{
    Event, BACKSLASH, COLON, COMMA, LEFT_BRACE, LEFT_BRACKET, MAX_JSON_DEPTH, QUOTE,
    RIGHT_BRACE, RIGHT_BRACKET,
};
use crate::machine;
use crate::machine::{FrameKind, Mode};
use crate::number::is_valid_json_number;
use crate::sax;
use crate::sax::Sax;
use crate::stats;
use crate::stats::{Config, State, StateStats};
use crate::text;

verus! {

/// Reports the atom with text `s` to `w`, if it is one.
fn write_atom<'a, W: Sax<'a>>(s: &'a str, w: &mut W) -> (ok: bool)
    requires
        old(w).wf(),
    ensures
        final(w).wf(),
        match grammar::atom(s@) {
            Some(n) => ok && W::steps(*old(w), grammar::events(n)[0], *final(w)),
            None => !ok && *final(w) == *old(w),
        },
{
    if text::same_text(s, "true") {
        w.bool_val(true);
        true
    } else if text::same_text(s, "false") {
        w.bool_val(false);
        true
    } else if text::same_text(s, "null") {
        w.null();
        true
    } else if is_valid_json_number(s.as_bytes()) {
        w.number(s);
        true
    } else {
        false
    }
}

/// The first set bit of `mask` from `off` on, or `len` if there is none before it.
fn find(mask: u64, off: usize, len: usize) -> (r: usize)
    requires
        off < len <= 64,
    ensures
        off <= r <= len,
        forall|n: u64| off <= n < r ==> !classify::bit(mask, n),
        r < len ==> classify::bit(mask, r as u64),
{
    let ahead: u64 = mask >> (off as u64);
    let skip: usize = ahead.trailing_zeros() as usize;
    proof {
        vstd::std_specs::bits::axiom_u64_trailing_zeros(ahead);
        let o: u64 = off as u64;
        assert forall|n: u64| off <= n < 64 && n < off + skip implies !classify::bit(mask, n) by {
            let j: u64 = (n - off) as u64;
            assert((ahead >> j) & 1 == 0);
            assert((mask >> n) & 1 == (ahead >> j) & 1) by (bit_vector)
                requires
                    o <= n < 64,
                    j == n - o,
                    ahead == mask >> o,
            ;
        }
        if off + skip < len {
            let j: u64 = skip as u64;
            let n: u64 = (off + skip) as u64;
            assert((mask >> n) & 1 == (ahead >> j) & 1) by (bit_vector)
                requires
                    o <= n < 64,
                    j == n - o,
                    ahead == mask >> o,
            ;
        }
    }
    if off + skip < len {
        off + skip
    } else {
        len
    }
}

/// The complement of a mask has the complementary bits.
proof fn lemma_not(mask: u64)
    ensures
        forall|n: u64| n < 64 ==> classify::bit(!mask, n) == !classify::bit(mask, n),
{
    assert forall|n: u64| n < 64 implies classify::bit(!mask, n) == !classify::bit(mask, n) by {
        assert(((!mask >> n) & 1 == 1) == !((mask >> n) & 1 == 1)) by (bit_vector)
            requires
                n < 64,
        ;
    }
}

/// A set bit of a union of two masks is set in one of them.
proof fn lemma_or(x: u64, y: u64)
    ensures
        forall|n: u64|
            n < 64 ==> classify::bit(x | y, n) == (classify::bit(x, n) || classify::bit(y, n)),
{
    assert forall|n: u64| n < 64 implies classify::bit(x | y, n) == (classify::bit(x, n)
        || classify::bit(y, n)) by {
        assert((((x | y) >> n) & 1 == 1) == ((x >> n) & 1 == 1 || (y >> n) & 1 == 1))
            by (bit_vector)
            requires
                n < 64,
        ;
    }
}

/// Whitespace between `i` and `j` makes no difference to what comes.
proof fn lemma_skip_run(b: Seq<u8>, i: int, j: int)
    requires
        0 <= i <= j <= b.len(),
        forall|n: int| i <= n < j ==> grammar::is_whitespace(#[trigger] b[n]),
    ensures
        grammar::skip_whitespace(b, i) == grammar::skip_whitespace(b, j),
        forall|mode: Mode, frames: Seq<FrameKind>| #[trigger]
            machine::rest(b, i, mode, frames) == machine::rest(b, j, mode, frames),
    decreases j - i,
{
    if i < j {
        lemma_skip_run(b, i + 1, j);
        assert forall|mode: Mode, frames: Seq<FrameKind>| #[trigger]
            machine::rest(b, i, mode, frames) == machine::rest(b, j, mode, frames) by {
            assert(machine::rest(b, i + 1, mode, frames) == machine::rest(b, j, mode, frames));
        }
    }
}

/// Ordinary bytes between `i` and `j` do not end a string.
proof fn lemma_string_run(b: Seq<u8>, i: int, j: int)
    requires
        0 <= i <= j <= b.len(),
        forall|n: int| i <= n < j ==> #[trigger] b[n] != QUOTE && b[n] != BACKSLASH,
    ensures
        grammar::string_end(b, i) == grammar::string_end(b, j),
    decreases j - i,
{
    if i < j {
        lemma_string_run(b, i + 1, j);
    }
}

/// Bytes between `i` and `j` that are no delimiters do not end an atom.
proof fn lemma_atom_run(b: Seq<u8>, i: int, j: int)
    requires
        0 <= i <= j <= b.len(),
        forall|n: int| i <= n < j ==> !grammar::is_delimiter(#[trigger] b[n]),
    ensures
        grammar::atom_end(b, i) == grammar::atom_end(b, j),
    decreases j - i,
{
    if i < j {
        lemma_atom_run(b, i + 1, j);
    }
}

/// A text that starts with a delimiter is no atom.
proof fn lemma_no_delimiter_atom(t: Seq<char>)
    requires
        encode_utf8(t).len() > 0,
        encode_utf8(t)[0] == COMMA || encode_utf8(t)[0] == RIGHT_BRACE || encode_utf8(t)[0]
            == RIGHT_BRACKET,
    ensures
        grammar::atom(t) is None,
{
    reveal_strlit("true");
    reveal_strlit("false");
    reveal_strlit("null");
    is_ascii_chars_encode_utf8("true"@);
    is_ascii_chars_encode_utf8("false"@);
    is_ascii_chars_encode_utf8("null"@);
    assert("true"@[0] as u8 == encode_utf8("true"@)[0]);
    assert("false"@[0] as u8 == encode_utf8("false"@)[0]);
    assert("null"@[0] as u8 == encode_utf8("null"@)[0]);
    if crate::number::is_number(encode_utf8(t)) {
        crate::number::lemma_number_start(encode_utf8(t));
    }
}

/// Events already reported and one more.
proof fn lemma_report(done: Seq<Event>, e: Event, r: Option<Seq<Event>>)
    ensures
        machine::prepend(done, machine::prepend(seq![e], r)) == machine::prepend(done.push(e), r),
{
    if let Some(s) = r {
        assert(done + (seq![e] + s) =~= done.push(e) + s);
    }
}

/// The parser between two bytes of its source.
struct Parser<'src, W: Sax<'src>> {
    src: &'src str,
    writer: W,
    state: State,
    /// What encloses the current position, outermost first, in the first `depth` places.
    frames: [FrameKind; 64],
    depth: usize,
    /// Offset of the byte behind the opening quote.
    str_start: usize,
    /// The current string has contained a backslash.
    str_escaped: bool,
    /// Consecutive backslashes immediately before the current position.
    bs_count: usize,
    /// Offset of the first byte of the atom.
    atom_start: usize,
    /// The key that waits for its colon.
    key_raw: &'src str,
    key_escaped: bool,
    /// `ObjectStart` or `ArrayStart` was reached by a comma.
    after_comma: bool,
    /// The writer at the start.
    start: Ghost<W>,
    /// The events reported so far.
    done: Ghost<Seq<Event>>,
}

impl<'src, W: Sax<'src>> Parser<'src, W> {
    /// The bytes of the source.
    spec fn bytes(self) -> Seq<u8> {
        encode_utf8(self.src@)
    }

    /// What encloses the current position.
    spec fn stack(self) -> Seq<FrameKind> {
        self.frames@.take(self.depth as int)
    }

    /// What decides which states come.
    spec fn config(self) -> Config {
        Config {
            state: self.state,
            frames: self.stack(),
            after_comma: self.after_comma,
            odd: self.bs_count % 2 == 1,
            atom_start: self.atom_start as int,
        }
    }

    /// With the events `r` still to come, all events of the source are reported in the end.
    spec fn owes(self, r: Option<Seq<Event>>) -> bool {
        machine::rest(self.bytes(), 0, Mode::Value, seq![]) == machine::prepend(self.done@, r)
    }

    /// The writer has taken the reported events, and the stack is in bounds.
    spec fn sound(self) -> bool {
        &&& self.writer.wf()
        &&& sax::reaches(self.start@, self.done@, self.writer)
        &&& self.depth <= MAX_JSON_DEPTH
    }

    /// The end of a string that is scanned up to `pos`.
    spec fn scan_end(self, pos: int) -> Option<int> {
        grammar::string_end(
            self.bytes(),
            if self.bs_count % 2 == 1 {
                pos + 1
            } else {
                pos
            },
        )
    }

    /// The events that are still to come at `pos`.
    spec fn pending(self, pos: int) -> Option<Seq<Event>> {
        let b = self.bytes();
        match self.state {
            State::ValueWhitespace | State::AfterColon => machine::rest(
                b,
                pos,
                Mode::Value,
                self.stack(),
            ),
            State::ObjectStart => machine::rest(
                b,
                pos,
                Mode::ObjectStart(self.after_comma),
                self.stack(),
            ),
            State::ArrayStart => machine::rest(
                b,
                pos,
                Mode::ArrayStart(self.after_comma),
                self.stack(),
            ),
            State::KeyEnd => machine::rest(b, pos, Mode::KeyEnd(self.key_raw@), self.stack()),
            State::AfterValue => machine::rest(b, pos, Mode::After, self.stack()),
            State::StringChars => match self.scan_end(pos) {
                Some(k) => machine::prepend(
                    seq![grammar::string_event(grammar::text(b, self.str_start as int, k))],
                    machine::rest(b, k + 1, Mode::After, self.stack()),
                ),
                None => None,
            },
            State::KeyChars => match self.scan_end(pos) {
                Some(k) => machine::rest(
                    b,
                    k + 1,
                    Mode::KeyEnd(grammar::text(b, self.str_start as int, k)),
                    self.stack(),
                ),
                None => None,
            },
            State::AtomChars => {
                let k = grammar::atom_end(b, pos);
                match grammar::atom(grammar::text(b, self.atom_start as int, k)) {
                    Some(n) => machine::prepend(
                        grammar::events(n),
                        machine::rest(b, k, Mode::After, self.stack()),
                    ),
                    None => None,
                }
            },
            State::Error => None,
        }
    }

    /// What holds of the fields that the state uses.
    spec fn placed(self, pos: int) -> bool {
        let b = self.bytes();
        match self.state {
            State::StringChars | State::KeyChars => {
                &&& 1 <= self.str_start <= pos
                &&& b[self.str_start - 1] == QUOTE
                &&& self.bs_count <= pos
                &&& self.str_escaped == b.subrange(self.str_start as int, pos).contains(BACKSLASH)
            },
            State::AtomChars => self.atom_start < pos && is_char_boundary(
                b,
                self.atom_start as int,
            ),
            State::KeyEnd => self.key_escaped == self.key_raw@.contains('\\') && is_char_boundary(
                b,
                pos,
            ),
            State::Error => true,
            _ => is_char_boundary(b, pos),
        }
    }

    /// The parser stands at `pos`.
    spec fn inv(self, pos: int) -> bool {
        &&& self.sound()
        &&& 0 <= pos <= self.bytes().len()
        &&& self.owes(self.pending(pos))
        &&& self.placed(pos)
    }

    /// The parse is the one that `other` belongs to.
    spec fn continues(self, other: Self) -> bool {
        self.src == other.src && self.start@ == other.start@
    }

    /// Notes that the writer went from `before` to where it is by taking `e`.
    fn report(&mut self, Ghost(before): Ghost<W>, Ghost(e): Ghost<Event>, Ghost(r): Ghost<
        Option<Seq<Event>>,
    >)
        requires
            sax::reaches(old(self).start@, old(self).done@, before),
            W::steps(before, e, old(self).writer),
            old(self).writer.wf(),
            old(self).depth <= MAX_JSON_DEPTH,
            old(self).owes(machine::prepend(seq![e], r)),
        ensures
            *final(self) == (Self { done: final(self).done, ..*old(self) }),
            final(self).sound(),
            final(self).owes(r),
    {
        proof {
            sax::lemma_reaches_push(self.start@, self.done@, before, e, self.writer);
            lemma_report(self.done@, e, r);
        }
        self.done = Ghost(self.done@.push(e));
    }

    /// Opens an object or an array.
    fn push_frame(&mut self, kind: FrameKind)
        requires
            old(self).depth < MAX_JSON_DEPTH,
        ensures
            *final(self) == (Self {
                frames: final(self).frames,
                depth: final(self).depth,
                ..*old(self)
            }),
            final(self).depth <= MAX_JSON_DEPTH,
            final(self).stack() == old(self).stack().push(kind),
    {
        self.frames[self.depth] = kind;
        self.depth += 1;
        assert(self.stack() =~= old(self).stack().push(kind));
    }

    /// Takes the first byte of a value, at `at`.
    fn open_value(&mut self, at: usize)
        requires
            old(self).sound(),
            at < old(self).bytes().len(),
            !grammar::is_whitespace(old(self).bytes()[at as int]),
            is_char_boundary(old(self).bytes(), at as int),
            old(self).owes(machine::rest_value(old(self).bytes(), at as int, old(self).stack())),
        ensures
            final(self).inv(at + 1),
            final(self).continues(*old(self)),
            final(self).config() == old(self).config().take_value(old(self).bytes(), at as int),
    {
        let ghost b = self.bytes();
        let ghost frames = self.stack();
        let ghost before = self.writer;
        proof {
            encode_utf8_valid_utf8(self.src@);
            if b[at as int] < 0x80 {
                text::lemma_ascii_boundary(b, at as int);
            }
        }
        let byte: u8 = self.src.as_bytes()[at];
        if byte == LEFT_BRACE {
            if self.depth >= MAX_JSON_DEPTH {
                self.state = State::Error;
            } else {
                self.push_frame(FrameKind::Object);
                self.writer.start_object();
                self.state = State::ObjectStart;
                self.after_comma = false;
                self.report(
                    Ghost(before),
                    Ghost(Event::StartObject),
                    Ghost(
                        machine::rest(
                            b,
                            at + 1,
                            Mode::ObjectStart(false),
                            frames.push(FrameKind::Object),
                        ),
                    ),
                );
            }
        } else if byte == LEFT_BRACKET {
            if self.depth >= MAX_JSON_DEPTH {
                self.state = State::Error;
            } else {
                self.push_frame(FrameKind::Array);
                self.writer.start_array();
                self.state = State::ArrayStart;
                self.after_comma = false;
                self.report(
                    Ghost(before),
                    Ghost(Event::StartArray),
                    Ghost(
                        machine::rest(
                            b,
                            at + 1,
                            Mode::ArrayStart(false),
                            frames.push(FrameKind::Array),
                        ),
                    ),
                );
            }
        } else if byte == QUOTE {
            self.str_start = at + 1;
            self.str_escaped = false;
            self.bs_count = 0;
            self.state = State::StringChars;
            assert(b.subrange(at + 1, at + 1).len() == 0);
        } else {
            self.atom_start = at;
            self.state = State::AtomChars;
            proof {
                lemma_atom_start(b, at as int);
            }
        }
    }

    /// Takes the closing bracket at `at`, of an object or an array as `kind` says.
    fn close(&mut self, kind: FrameKind, at: usize)
        requires
            old(self).sound(),
            at < old(self).bytes().len(),
            old(self).bytes()[at as int] < 0x80,
            old(self).owes(
                machine::rest_close(old(self).bytes(), at as int, kind, old(self).stack()),
            ),
        ensures
            final(self).inv(at + 1),
            final(self).continues(*old(self)),
            final(self).config() == old(self).config().take_close(kind),
    {
        let ghost b = self.bytes();
        let ghost frames = self.stack();
        let ghost before = self.writer;
        proof {
            encode_utf8_valid_utf8(self.src@);
            text::lemma_ascii_boundary(b, at as int);
        }
        if self.depth > 0 && self.frames[self.depth - 1] == kind {
            self.depth -= 1;
            assert(self.stack() =~= frames.drop_last());
            let ghost r = machine::rest(b, at + 1, Mode::After, frames.drop_last());
            self.state = State::AfterValue;
            match kind {
                FrameKind::Object => {
                    self.writer.end_object();
                    self.report(Ghost(before), Ghost(Event::EndObject), Ghost(r));
                },
                FrameKind::Array => {
                    self.writer.end_array();
                    self.report(Ghost(before), Ghost(Event::EndArray), Ghost(r));
                },
            }
        } else {
            self.state = State::Error;
        }
    }

    /// Takes the byte at `at`, which follows a value and is not whitespace.
    fn after_value(&mut self, at: usize)
        requires
            old(self).sound(),
            at < old(self).bytes().len(),
            !grammar::is_whitespace(old(self).bytes()[at as int]),
            old(self).owes(
                machine::rest(old(self).bytes(), at as int, Mode::After, old(self).stack()),
            ),
        ensures
            final(self).inv(at + 1),
            final(self).continues(*old(self)),
            final(self).config() == old(self).config().take_after(old(self).bytes(), at as int),
    {
        let ghost b = self.bytes();
        proof {
            encode_utf8_valid_utf8(self.src@);
            if b[at as int] < 0x80 {
                text::lemma_ascii_boundary(b, at as int);
            }
        }
        let byte: u8 = self.src.as_bytes()[at];
        if byte == COMMA {
            if self.depth == 0 {
                self.state = State::Error;
            } else {
                self.after_comma = true;
                match self.frames[self.depth - 1] {
                    FrameKind::Object => {
                        self.state = State::ObjectStart;
                    },
                    FrameKind::Array => {
                        self.state = State::ArrayStart;
                    },
                }
            }
        } else if byte == RIGHT_BRACE {
            self.close(FrameKind::Object, at);
        } else if byte == RIGHT_BRACKET {
            self.close(FrameKind::Array, at);
        } else {
            self.state = State::Error;
        }
    }

    /// The masks describe the `len` bytes of the source from `base` on.
    spec fn classified(self, base: int, len: int, masks: ByteState) -> bool {
        &&& 0 <= base
        &&& base % 64 == 0
        &&& 0 < len <= 64
        &&& len == 64 || base + len == self.bytes().len()
        &&& base + len <= self.bytes().len()
        &&& base + len <= usize::MAX
        &&& masks.describes(self.bytes().subrange(base, base + len))
    }

    /// The first offset from `off` on that does not hold whitespace, or `len`.
    fn skip_whitespace(&self, base: usize, off: usize, len: usize, masks: &ByteState) -> (p: usize)
        requires
            self.classified(base as int, len as int, *masks),
            off < len,
        ensures
            off <= p <= len,
            forall|n: int| base + off <= n < base + p ==> grammar::is_whitespace(
                #[trigger] self.bytes()[n],
            ),
            p < len ==> !grammar::is_whitespace(self.bytes()[base + p]),
    {
        let p: usize = find(!masks.whitespace, off, len);
        proof {
            lemma_not(masks.whitespace);
            let b = self.bytes();
            let chunk = b.subrange(base as int, base + len);
            assert forall|n: int| base + off <= n < base + p implies grammar::is_whitespace(
                #[trigger] b[n],
            ) by {
                let k: u64 = (n - base) as u64;
                assert(!classify::bit(!masks.whitespace, k));
                assert(masks.describes_byte(chunk, k));
                assert(chunk[k as int] == b[n]);
            }
            if p < len {
                let k: u64 = p as u64;
                assert(masks.describes_byte(chunk, k));
                assert(chunk[k as int] == b[base + p]);
            }
        }
        p
    }

    /// Goes on from offset `off` of the chunk in a state that skips whitespace.
    fn step_token(&mut self, base: usize, off: usize, len: usize, masks: &ByteState) -> (r: usize)
        requires
            old(self).classified(base as int, len as int, *masks),
            off < len,
            old(self).inv(base + off),
            !(old(self).state is StringChars),
            !(old(self).state is KeyChars),
            !(old(self).state is AtomChars),
            !(old(self).state is Error),
        ensures
            off < r <= len,
            final(self).inv(base + r),
            final(self).continues(*old(self)),
            (final(self).config(), base + r) == old(self).config().scan(
                old(self).bytes(),
                base + off,
            ),
    {
        let ghost b = self.bytes();
        let ghost frames = self.stack();
        let p: usize = self.skip_whitespace(base, off, len, masks);
        proof {
            encode_utf8_valid_utf8(self.src@);
            lemma_skip_run(b, base + off, base + p);
            if p > off {
                assert(grammar::is_whitespace(b[base + p - 1]));
                text::lemma_ascii_boundary(b, base + p - 1);
            }
            stats::lemma_scan(
                self.config(),
                b,
                base as int,
                off as int,
                p as int,
                len as int,
            );
        }
        if p >= len {
            return len;
        }
        let at: usize = base + p;
        let byte: u8 = self.src.as_bytes()[at];
        proof {
            if byte < 0x80 {
                text::lemma_ascii_boundary(b, at as int);
            }
            assert(grammar::skip_whitespace(b, at as int) == at);
        }
        match self.state {
            State::ObjectStart => {
                if byte == QUOTE {
                    self.after_comma = false;
                    self.str_start = at + 1;
                    self.str_escaped = false;
                    self.bs_count = 0;
                    self.state = State::KeyChars;
                    assert(b.subrange(at + 1, at + 1).len() == 0);
                } else if byte == RIGHT_BRACE && !self.after_comma {
                    self.close(FrameKind::Object, at);
                } else {
                    self.state = State::Error;
                }
            },
            State::ArrayStart => {
                if byte == RIGHT_BRACKET {
                    if self.after_comma {
                        self.state = State::Error;
                        assert(machine::rest_value(b, at as int, frames) is None);
                    } else {
                        self.close(FrameKind::Array, at);
                    }
                } else {
                    self.after_comma = false;
                    self.open_value(at);
                }
            },
            State::KeyEnd => {
                if byte == COLON {
                    let ghost before = self.writer;
                    let ghost r = machine::rest(b, at + 1, Mode::Value, frames);
                    if self.key_escaped {
                        self.writer.escaped_key(self.key_raw);
                    } else {
                        self.writer.key(self.key_raw);
                    }
                    self.state = State::AfterColon;
                    self.report(Ghost(before), Ghost(grammar::key_event(self.key_raw@)), Ghost(r));
                } else {
                    self.state = State::Error;
                }
            },
            State::AfterValue => {
                self.after_value(at);
            },
            _ => {
                self.open_value(at);
            },
        }
        p + 1
    }

    /// The first offset from `off` on that holds a quote or a backslash, or `len`.
    fn find_string_stop(&self, base: usize, off: usize, len: usize, masks: &ByteState) -> (p: usize)
        requires
            self.classified(base as int, len as int, *masks),
            off < len,
        ensures
            off <= p <= len,
            forall|n: int|
                base + off <= n < base + p ==> #[trigger] self.bytes()[n] != QUOTE
                    && self.bytes()[n] != BACKSLASH,
            p < len ==> self.bytes()[base + p] == QUOTE || self.bytes()[base + p] == BACKSLASH,
    {
        let p: usize = find(masks.backslashes | masks.quotes, off, len);
        proof {
            let b = self.bytes();
            lemma_or(masks.backslashes, masks.quotes);
            let chunk = b.subrange(base as int, base + len);
            assert forall|n: int| base + off <= n < base + p implies #[trigger] b[n] != QUOTE && b[n]
                != BACKSLASH by {
                let k: u64 = (n - base) as u64;
                assert(!classify::bit(masks.backslashes | masks.quotes, k));
                assert(masks.describes_byte(chunk, k));
                assert(chunk[k as int] == b[n]);
            }
            if p < len {
                let k: u64 = p as u64;
                assert(masks.describes_byte(chunk, k));
                assert(chunk[k as int] == b[base + p]);
            }
        }
        p
    }

    /// Takes the quote at `at` that ends a string or a key.
    fn close_string(&mut self, at: usize)
        requires
            old(self).inv(at as int),
            old(self).state is StringChars || old(self).state is KeyChars,
            at < old(self).bytes().len(),
            old(self).bytes()[at as int] == QUOTE,
            old(self).bs_count % 2 == 0,
        ensures
            final(self).inv(at + 1),
            final(self).continues(*old(self)),
            final(self).config() == old(self).config().take(old(self).bytes(), at as int),
    {
        let ghost b = self.bytes();
        let ghost frames = self.stack();
        proof {
            encode_utf8_valid_utf8(self.src@);
            text::lemma_ascii_boundary(b, at as int);
            text::lemma_ascii_boundary(b, self.str_start - 1);
        }
        let raw = text::slice(self.src, self.str_start, at);
        proof {
            text::lemma_valid_slice(b, self.str_start as int, at as int);
            text::lemma_backslash(raw@);
            assert(self.scan_end(at as int) == Some(at as int));
        }
        self.bs_count = 0;
        if let State::StringChars = self.state {
            let ghost before = self.writer;
            let ghost r = machine::rest(b, at + 1, Mode::After, frames);
            if self.str_escaped {
                self.writer.escaped_string(raw);
            } else {
                self.writer.string(raw);
            }
            self.state = State::AfterValue;
            self.report(Ghost(before), Ghost(grammar::string_event(raw@)), Ghost(r));
        } else {
            self.key_raw = raw;
            self.key_escaped = self.str_escaped;
            self.state = State::KeyEnd;
        }
    }

    /// Takes the quote or the backslash at `at`, inside a string or a key.
    fn take_in_string(&mut self, at: usize)
        requires
            old(self).inv(at as int),
            old(self).state is StringChars || old(self).state is KeyChars,
            at < old(self).bytes().len(),
            old(self).bytes()[at as int] == QUOTE || old(self).bytes()[at as int] == BACKSLASH,
        ensures
            final(self).inv(at + 1),
            final(self).continues(*old(self)),
            final(self).config() == old(self).config().take(old(self).bytes(), at as int),
    {
        let ghost b = self.bytes();
        let byte: u8 = self.src.as_bytes()[at];
        if byte == BACKSLASH {
            // The parity of the run decides whether a quote behind it is escaped.
            proof {
                lemma_contains_next(b, self.str_start as int, at as int, BACKSLASH);
            }
            let ghost before = *self;
            self.bs_count += 1;
            self.str_escaped = true;
            assert(self.scan_end(at + 1) == before.scan_end(at as int));
        } else if self.bs_count % 2 == 1 {
            proof {
                lemma_contains_next(b, self.str_start as int, at as int, BACKSLASH);
            }
            let ghost before = *self;
            self.bs_count = 0;
            assert(self.scan_end(at + 1) == before.scan_end(at as int));
        } else {
            self.close_string(at);
        }
    }

    /// Goes on from offset `off` of the chunk inside a string or a key.
    fn step_string(&mut self, base: usize, off: usize, len: usize, masks: &ByteState) -> (r: usize)
        requires
            old(self).classified(base as int, len as int, *masks),
            off < len,
            old(self).inv(base + off),
            old(self).state is StringChars || old(self).state is KeyChars,
        ensures
            off < r <= len,
            final(self).inv(base + r),
            final(self).continues(*old(self)),
            (final(self).config(), base + r) == old(self).config().scan(
                old(self).bytes(),
                base + off,
            ),
    {
        let ghost b = self.bytes();
        let p: usize = self.find_string_stop(base, off, len, masks);
        proof {
            if p > off {
                lemma_string_run(b, base + off, base + p);
                lemma_string_run(b, base + off + 1, base + p);
            }
            lemma_contains_run(b, self.str_start as int, base + off, base + p, BACKSLASH);
            stats::lemma_scan(
                self.config(),
                b,
                base as int,
                off as int,
                p as int,
                len as int,
            );
        }
        // Ordinary characters break a run of backslashes.
        if p > off {
            self.bs_count = 0;
        }
        assert(self.scan_end(base + p) == old(self).scan_end(base + off));
        assert(self.inv(base + p));
        if p >= len {
            return len;
        }
        self.take_in_string(base + p);
        p + 1
    }

    /// Goes on from offset `off` of the chunk inside an atom.
    fn step_atom(&mut self, base: usize, off: usize, len: usize, masks: &ByteState) -> (r: usize)
        requires
            old(self).classified(base as int, len as int, *masks),
            off < len,
            old(self).inv(base + off),
            old(self).state is AtomChars,
        ensures
            off < r <= len,
            final(self).inv(base + r),
            final(self).continues(*old(self)),
            (final(self).config(), base + r) == old(self).config().scan(
                old(self).bytes(),
                base + off,
            ),
    {
        let ghost b = self.bytes();
        let ghost frames = self.stack();
        let p: usize = find(masks.delimiters, off, len);
        proof {
            encode_utf8_valid_utf8(self.src@);
            let chunk = b.subrange(base as int, base + len);
            assert forall|n: int| base + off <= n < base + p implies !grammar::is_delimiter(
                #[trigger] b[n],
            ) by {
                let k: u64 = (n - base) as u64;
                assert(!classify::bit(masks.delimiters, k));
                assert(masks.describes_byte(chunk, k));
                assert(chunk[k as int] == b[n]);
            }
            if p < len {
                let k: u64 = p as u64;
                assert(masks.describes_byte(chunk, k));
                assert(chunk[k as int] == b[base + p]);
            }
            lemma_atom_run(b, base + off, base + p);
            stats::lemma_scan(
                self.config(),
                b,
                base as int,
                off as int,
                p as int,
                len as int,
            );
        }
        if p >= len {
            return len;
        }
        let at: usize = base + p;
        let byte: u8 = self.src.as_bytes()[at];
        proof {
            text::lemma_ascii_boundary(b, at as int);
            assert(grammar::atom_end(b, at as int) == at);
        }
        if !self.flush_atom(at) {
            self.state = State::Error;
        } else if byte <= 0x20 {
            self.state = State::AfterValue;
            proof {
                lemma_skip_run(b, at as int, at + 1);
            }
        } else {
            self.after_value(at);
        }
        p + 1
    }

    /// Reports the atom that ends at `end`, if it is one.
    fn flush_atom(&mut self, end: usize) -> (ok: bool)
        requires
            old(self).sound(),
            old(self).state is AtomChars,
            old(self).atom_start < end <= old(self).bytes().len(),
            is_char_boundary(old(self).bytes(), old(self).atom_start as int),
            is_char_boundary(old(self).bytes(), end as int),
            grammar::atom_end(old(self).bytes(), end as int) == end,
            old(self).owes(old(self).pending(end as int)),
        ensures
            *final(self) == (Self {
                done: final(self).done,
                writer: final(self).writer,
                ..*old(self)
            }),
            final(self).sound(),
            ok == (grammar::atom(
                grammar::text(old(self).bytes(), old(self).atom_start as int, end as int),
            ) is Some),
            ok ==> final(self).owes(
                machine::rest(old(self).bytes(), end as int, Mode::After, old(self).stack()),
            ),
            !ok ==> final(self).owes(None),
    {
        let ghost b = self.bytes();
        let ghost before = self.writer;
        let ghost r = machine::rest(b, end as int, Mode::After, self.stack());
        proof {
            encode_utf8_valid_utf8(self.src@);
        }
        let s = text::slice(self.src, self.atom_start, end);
        if write_atom(s, &mut self.writer) {
            proof {
                let n = grammar::atom(s@)->0;
                assert(grammar::events(n) =~= seq![grammar::events(n)[0]]);
            }
            self.report(Ghost(before), Ghost(grammar::events(grammar::atom(s@)->0)[0]), Ghost(r));
            true
        } else {
            false
        }
    }

    /// Takes all bytes of the source, and counts the scans in `stats`.
    fn run(&mut self, stats: &mut StateStats)
        requires
            old(self).inv(0),
            old(self).config() == Config::initial(),
        ensures
            final(self).inv(final(self).bytes().len() as int),
            final(self).continues(*old(self)),
            *final(stats) == old(stats).counted(stats::trail(old(self).bytes())),
    {
        let bytes = self.src.as_bytes();
        let mut pos: usize = 0;
        let ghost mut seen: Seq<State> = seq![];
        while pos < bytes.len()
            invariant
                bytes@ == self.bytes(),
                pos <= bytes@.len(),
                pos % 64 == 0 || pos == bytes@.len(),
                self.inv(pos as int),
                self.continues(*old(self)),
                *stats == old(stats).counted(seen),
                stats::trail(bytes@) == seen + self.config().trail(bytes@, pos as int),
            decreases bytes@.len() - pos,
        {
            let ahead: usize = bytes.len() - pos;
            let len: usize = if ahead < 64 {
                ahead
            } else {
                64
            };
            let masks = classify_u64(&bytes[pos..pos + len]);
            let mut off: usize = 0;
            while off < len
                invariant
                    bytes@ == self.bytes(),
                    off <= len,
                    self.classified(pos as int, len as int, masks),
                    self.inv(pos + off),
                    self.continues(*old(self)),
                    *stats == old(stats).counted(seen),
                    stats::trail(bytes@) == seen + self.config().trail(bytes@, pos + off),
                decreases len - off,
            {
                let ghost before = self.config();
                proof {
                    stats::lemma_counted_next(*old(stats), seen, self.state);
                }
                stats.record(self.state);
                let next: usize = match self.state {
                    State::StringChars | State::KeyChars => self.step_string(
                        pos,
                        off,
                        len,
                        &masks,
                    ),
                    State::AtomChars => self.step_atom(pos, off, len, &masks),
                    State::Error => len,
                    _ => self.step_token(pos, off, len, &masks),
                };
                proof {
                    if !(before.state is Error) {
                        let rest = self.config().trail(bytes@, pos + next);
                        assert(seen.push(before.state) + rest =~= seen + (seq![before.state]
                            + rest));
                        seen = seen.push(before.state);
                    }
                }
                off = next;
            }
            pos = pos + len;
        }
        assert(self.config().trail(bytes@, pos as int) =~= seq![]);
        assert(seen + seq![] =~= seen);
    }
}

/// Bytes that differ from `x` do not matter to whether `x` occurs.
proof fn lemma_contains_run(b: Seq<u8>, i: int, q: int, p: int, x: u8)
    requires
        0 <= i <= q <= p <= b.len(),
        forall|n: int| q <= n < p ==> #[trigger] b[n] != x,
    ensures
        b.subrange(i, p).contains(x) == b.subrange(i, q).contains(x),
    decreases p - q,
{
    if q < p {
        lemma_contains_run(b, i, q, p - 1, x);
        lemma_contains_next(b, i, p - 1, x);
    }
}

/// One byte more may be the one that occurs.
proof fn lemma_contains_next(b: Seq<u8>, i: int, j: int, x: u8)
    requires
        0 <= i <= j < b.len(),
    ensures
        b.subrange(i, j + 1).contains(x) == (b.subrange(i, j).contains(x) || b[j] == x),
{
    let s = b.subrange(i, j);
    let t = b.subrange(i, j + 1);
    if s.contains(x) {
        let k = choose|k: int| 0 <= k < s.len() && s[k] == x;
        assert(t[k] == x);
    }
    if b[j] == x {
        assert(t[j - i] == x);
    }
    if t.contains(x) {
        let k = choose|k: int| 0 <= k < t.len() && t[k] == x;
        if k < j - i {
            assert(s[k] == x);
        }
    }
}

/// What a parse of `src` with the writer `w0` may return: nothing if `src` is not a JSON
/// document, and otherwise what the writer returns when it has taken the events of the
/// document, in order and no others.
pub open spec fn may_return<'src, W: Sax<'src>>(src: Seq<char>, w0: W, out: Option<W::Output>) -> bool {
    match grammar::document(encode_utf8(src)) {
        Some(n) => exists|w: W|
            sax::reaches(w0, grammar::events(n), w) && #[trigger] w.finishes(out),
        None => out is None,
    }
}

/// The writer `w0` may be finished when it has taken the events of the document `src`.  This
/// says nothing of any other state, nor of a source that is not a JSON document: there the
/// parser cannot finish the writer.
pub open spec fn finishable<'src, W: Sax<'src>>(src: Seq<char>, w0: W) -> bool {
    grammar::document(encode_utf8(src)) matches Some(n) ==> forall|w: W| #[trigger]
        sax::reaches(w0, grammar::events(n), w) ==> w.may_finish()
}

/// Parses `src` with the writer `writer`, and counts the scans in `stats`.
fn parse_json_impl<'a, W: Sax<'a>>(src: &'a str, writer: W, stats: &mut StateStats) -> (out: Option<
    W::Output,
>)
    requires
        writer.wf(),
        finishable(src@, writer),
    ensures
        may_return(src@, writer, out),
        *final(stats) == old(stats).counted(stats::trail(encode_utf8(src@))),
{
    let ghost b = encode_utf8(src@);
    let mut parser = Parser {
        src,
        writer,
        state: State::ValueWhitespace,
        frames: [FrameKind::Object; 64],
        depth: 0,
        str_start: 0,
        str_escaped: false,
        bs_count: 0,
        atom_start: 0,
        key_raw: "",
        key_escaped: false,
        after_comma: false,
        start: Ghost(writer),
        done: Ghost(Seq::empty()),
    };
    proof {
        encode_utf8_valid_utf8(src@);
        is_char_boundary_start_end_of_seq(b);
        machine::lemma_rest_document(b);
        assert(parser.stack() =~= seq![]);
        let r = machine::rest(b, 0, Mode::Value, seq![]);
        if let Some(es) = r {
            assert(seq![] + es =~= es);
        }
        assert(parser.inv(0));
    }
    parser.run(stats);
    // A trailing atom that no delimiter follows.
    if let State::AtomChars = parser.state {
        let end: usize = src.as_bytes().len();
        if !parser.flush_atom(end) {
            return None;
        }
    } else if let State::AfterValue = parser.state {
    } else {
        return None;
    }
    // Unclosed objects or arrays.
    if parser.depth != 0 {
        return None;
    }
    proof {
        let n = grammar::document(b)->0;
        assert(parser.done@ + seq![] =~= parser.done@);
        assert(parser.done@ == grammar::events(n));
    }
    parser.writer.finish()
}

/// Parses `src` using a custom [`Sax`] writer, returning its output.
///
/// This is the generic entry point: supply your own writer to produce any output in a
/// single pass over the source.  `None` comes back if `src` is not a JSON document, or
/// nests deeper than [`MAX_JSON_DEPTH`], or if the writer says so when it finishes.
pub fn parse_with<'a, W: Sax<'a>>(src: &'a str, writer: W) -> (out: Option<W::Output>)
    requires
        writer.wf(),
        finishable(src@, writer),
    ensures
        may_return(src@, writer, out),
{
    let mut stats = StateStats::new();
    parse_json_impl(src, writer, &mut stats)
}

/// Parses `src` like [`parse_with`], and adds to `stats` how often the parser scanned in
/// each of its states.
pub fn parse_with_stats<'a, W: Sax<'a>>(src: &'a str, writer: W, stats: &mut StateStats) -> (out:
    Option<W::Output>)
    requires
        writer.wf(),
        finishable(src@, writer),
    ensures
        may_return(src@, writer, out),
        *final(stats) == old(stats).counted(stats::trail(encode_utf8(src@))),
{
    parse_json_impl(src, writer, stats)
}

/// From the second byte of an atom on its end is the same, and an atom that starts
/// with a delimiter is none.
proof fn lemma_atom_start(b: Seq<u8>, i: int)
    requires
        valid_utf8(b),
        0 <= i < b.len(),
        is_char_boundary(b, i),
    ensures
        i < grammar::atom_end(b, i + 1),
        grammar::is_delimiter(b[i]) && !grammar::is_whitespace(b[i]) ==> grammar::atom(
            grammar::text(b, i, grammar::atom_end(b, i + 1)),
        ) is None,
{
    let k = grammar::atom_end(b, i + 1);
    grammar::lemma_atom_end(b, i + 1);
    if grammar::is_delimiter(b[i]) && !grammar::is_whitespace(b[i]) {
        if k < b.len() {
            text::lemma_ascii_boundary(b, k);
        } else {
            is_char_boundary_start_end_of_seq(b);
        }
        text::lemma_valid_slice(b, i, k);
        assert(b.subrange(i, k)[0] == b[i]);
        lemma_no_delimiter_atom(grammar::text(b, i, k));
    }
}

}
