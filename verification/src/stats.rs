//! The states of the parser, and how often it scans in each of them.
use vstd::prelude::*;

use crate::grammar;
use crate::grammar::{
    BACKSLASH, COLON, COMMA, LEFT_BRACE, LEFT_BRACKET, MAX_JSON_DEPTH, QUOTE, RIGHT_BRACE,
    RIGHT_BRACKET,
};
use crate::machine::FrameKind;

verus! {

/// Where the parser stands between two bytes.
#[derive(Copy, Clone, PartialEq, Eq, Structural)]
pub enum State {
    /// Before the top-level value.
    ValueWhitespace,
    /// Inside a string value.
    StringChars,
    /// Inside a key.
    KeyChars,
    /// Behind a key; skip whitespace, then expect `:`.
    KeyEnd,
    /// Behind `:`; skip whitespace, then expect a value.
    AfterColon,
    /// Inside a number or a literal name.
    AtomChars,
    /// The input is not well-formed.
    Error,
    /// Behind `{` or a comma in an object; expect a key, or `}` if no comma came before.
    ObjectStart,
    /// Behind `[` or a comma in an array; expect a value, or `]` if no comma came before.
    ArrayStart,
    /// Behind a complete value.
    AfterValue,
}

/// The parser between two bytes, as far as it decides which states come.
pub struct Config {
    pub state: State,
    /// What encloses the position, outermost first.
    pub frames: Seq<FrameKind>,
    /// `ObjectStart` or `ArrayStart` was reached by a comma.
    pub after_comma: bool,
    /// An odd number of backslashes stands immediately before.
    pub odd: bool,
    /// Where the atom starts.
    pub atom_start: int,
}

impl Config {
    /// The parser at the start of a source.
    pub open spec fn initial() -> Config {
        Config {
            state: State::ValueWhitespace,
            frames: seq![],
            after_comma: false,
            odd: false,
            atom_start: 0,
        }
    }

    /// The same, in another state.
    pub open spec fn to(self, state: State) -> Config {
        Config { state, ..self }
    }

    /// The byte `c` ends a scan in this state.
    pub open spec fn stops_at(self, c: u8) -> bool {
        match self.state {
            State::StringChars | State::KeyChars => c == QUOTE || c == BACKSLASH,
            State::AtomChars => grammar::is_delimiter(c),
            _ => !grammar::is_whitespace(c),
        }
    }

    /// The first position from `p` on, before `end`, that ends the scan, or `end`.
    pub open spec fn stop(self, b: Seq<u8>, p: int, end: int) -> int
        decreases end - p,
    {
        if p >= end || self.stops_at(b[p]) {
            p
        } else {
            self.stop(b, p + 1, end)
        }
    }

    /// The first byte of a value is taken, at `q`.
    pub open spec fn take_value(self, b: Seq<u8>, q: int) -> Config {
        if b[q] == LEFT_BRACE {
            if self.frames.len() >= MAX_JSON_DEPTH {
                self.to(State::Error)
            } else {
                Config {
                    state: State::ObjectStart,
                    frames: self.frames.push(FrameKind::Object),
                    after_comma: false,
                    ..self
                }
            }
        } else if b[q] == LEFT_BRACKET {
            if self.frames.len() >= MAX_JSON_DEPTH {
                self.to(State::Error)
            } else {
                Config {
                    state: State::ArrayStart,
                    frames: self.frames.push(FrameKind::Array),
                    after_comma: false,
                    ..self
                }
            }
        } else if b[q] == QUOTE {
            Config { state: State::StringChars, odd: false, ..self }
        } else {
            Config { state: State::AtomChars, atom_start: q, ..self }
        }
    }

    /// A closing bracket is taken.
    pub open spec fn take_close(self, kind: FrameKind) -> Config {
        if self.frames.len() > 0 && self.frames.last() == kind {
            Config { state: State::AfterValue, frames: self.frames.drop_last(), ..self }
        } else {
            self.to(State::Error)
        }
    }

    /// The byte behind a value is taken, at `q`.
    pub open spec fn take_after(self, b: Seq<u8>, q: int) -> Config {
        if b[q] == COMMA {
            if self.frames.len() == 0 {
                self.to(State::Error)
            } else if self.frames.last() == FrameKind::Object {
                Config { state: State::ObjectStart, after_comma: true, ..self }
            } else {
                Config { state: State::ArrayStart, after_comma: true, ..self }
            }
        } else if b[q] == RIGHT_BRACE {
            self.take_close(FrameKind::Object)
        } else if b[q] == RIGHT_BRACKET {
            self.take_close(FrameKind::Array)
        } else {
            self.to(State::Error)
        }
    }

    /// The byte that ended the scan is taken, at `q`.
    pub open spec fn take(self, b: Seq<u8>, q: int) -> Config {
        match self.state {
            State::ValueWhitespace | State::AfterColon => self.take_value(b, q),
            State::StringChars | State::KeyChars => if b[q] == BACKSLASH {
                Config { odd: !self.odd, ..self }
            } else if self.odd {
                Config { odd: false, ..self }
            } else if self.state is StringChars {
                self.to(State::AfterValue)
            } else {
                self.to(State::KeyEnd)
            },
            State::KeyEnd => if b[q] == COLON {
                self.to(State::AfterColon)
            } else {
                self.to(State::Error)
            },
            State::AtomChars => if grammar::atom(grammar::text(b, self.atom_start, q)) is None {
                self.to(State::Error)
            } else if grammar::is_whitespace(b[q]) {
                self.to(State::AfterValue)
            } else {
                self.take_after(b, q)
            },
            State::Error => self,
            State::ObjectStart => if b[q] == QUOTE {
                Config { state: State::KeyChars, after_comma: false, odd: false, ..self }
            } else if b[q] == RIGHT_BRACE && !self.after_comma {
                self.take_close(FrameKind::Object)
            } else {
                self.to(State::Error)
            },
            State::ArrayStart => if b[q] == RIGHT_BRACKET {
                if self.after_comma {
                    self.to(State::Error)
                } else {
                    self.take_close(FrameKind::Array)
                }
            } else {
                (Config { after_comma: false, ..self }).take_value(b, q)
            },
            State::AfterValue => self.take_after(b, q),
        }
    }

    /// One scan: from `p` to the byte that ends it, or to the end of the chunk of 64 bytes
    /// that `p` lies in.  With the position where the next scan starts.
    pub open spec fn scan(self, b: Seq<u8>, p: int) -> (Config, int) {
        let end = if (p / 64 + 1) * 64 <= b.len() {
            (p / 64 + 1) * 64
        } else {
            b.len() as int
        };
        let q = self.stop(b, p, end);
        let c = if q > p && (self.state is StringChars || self.state is KeyChars) {
            Config { odd: false, ..self }
        } else {
            self
        };
        if q >= end {
            (c, end)
        } else {
            (c.take(b, q), q + 1)
        }
    }

    /// The states of the scans from `p` on, one after the other, up to the end of `b` or
    /// the first error.
    pub open spec fn trail(self, b: Seq<u8>, p: int) -> Seq<State>
        decreases b.len() - p,
    {
        if !(0 <= p < b.len()) || self.state is Error {
            seq![]
        } else {
            let (c, r) = self.scan(b, p);
            if p < r {
                seq![self.state] + c.trail(b, r)
            } else {
                seq![]
            }
        }
    }
}

/// The states of all scans of the source `b`.
pub open spec fn trail(b: Seq<u8>) -> Seq<State> {
    Config::initial().trail(b, 0)
}

/// How often `s` occurs in `t`.
pub open spec fn occurrences(t: Seq<State>, s: State) -> int
    decreases t.len(),
{
    if t.len() == 0 {
        0
    } else {
        occurrences(t.drop_last(), s) + if t.last() == s {
            1int
        } else {
            0
        }
    }
}

/// A scan ends at `q` if nothing before `q` ends it and `q` does, or is the end.
pub proof fn lemma_stop(c: Config, b: Seq<u8>, p: int, q: int, end: int)
    requires
        p <= q <= end,
        forall|n: int| p <= n < q ==> !c.stops_at(#[trigger] b[n]),
        q < end ==> c.stops_at(b[q]),
    ensures
        c.stop(b, p, end) == q,
    decreases q - p,
{
    if p < q {
        lemma_stop(c, b, p + 1, q, end);
    }
}

/// One scan within the chunk of `len` bytes from `base` on, from its offset `off` to its
/// offset `p`.
pub proof fn lemma_scan(c: Config, b: Seq<u8>, base: int, off: int, p: int, len: int)
    requires
        0 <= base,
        base % 64 == 0,
        0 <= off <= p <= len <= 64,
        off < len,
        len == 64 || base + len == b.len(),
        base + len <= b.len(),
        forall|n: int| base + off <= n < base + p ==> !c.stops_at(#[trigger] b[n]),
        p < len ==> c.stops_at(b[base + p]),
    ensures
        ({
            let d = if p > off && (c.state is StringChars || c.state is KeyChars) {
                Config { odd: false, ..c }
            } else {
                c
            };
            c.scan(b, base + off) == if p >= len {
                (d, base + len)
            } else {
                (d.take(b, base + p), base + p + 1)
            }
        }),
{
    assert((base + off) / 64 == base / 64);
    assert((base / 64 + 1) * 64 == base + 64);
    lemma_stop(c, b, base + off, base + p, base + len);
}

/// One scan more at the end of a trail is counted last.
pub proof fn lemma_counted_next(stats: StateStats, t: Seq<State>, s: State)
    ensures
        stats.counted(t.push(s)) == stats.counted(t).recorded(s),
{
    assert(t.push(s).drop_last() =~= t);
}

/// How often the parser has scanned in each state.
///
/// `string_escape` and `key_escape` belong to no state and stay as they are: backslashes
/// are counted within `string_chars` and `key_chars`.
#[derive(Debug, Copy, Clone, PartialEq, Eq, Structural)]
pub struct StateStats {
    pub value_whitespace: u64,
    pub string_chars: u64,
    pub string_escape: u64,
    pub key_chars: u64,
    pub key_escape: u64,
    pub key_end: u64,
    pub after_colon: u64,
    pub atom_chars: u64,
    pub object_start: u64,
    pub array_start: u64,
    pub after_value: u64,
}

impl StateStats {
    /// All counters at zero.
    pub open spec fn zero() -> StateStats {
        StateStats {
            value_whitespace: 0,
            string_chars: 0,
            string_escape: 0,
            key_chars: 0,
            key_escape: 0,
            key_end: 0,
            after_colon: 0,
            atom_chars: 0,
            object_start: 0,
            array_start: 0,
            after_value: 0,
        }
    }

    /// The counter of the state `s`.
    pub open spec fn counter(self, s: State) -> u64
        recommends
            !(s is Error),
    {
        match s {
            State::ValueWhitespace => self.value_whitespace,
            State::StringChars => self.string_chars,
            State::KeyChars => self.key_chars,
            State::KeyEnd => self.key_end,
            State::AfterColon => self.after_colon,
            State::AtomChars => self.atom_chars,
            State::ObjectStart => self.object_start,
            State::ArrayStart => self.array_start,
            State::AfterValue => self.after_value,
            State::Error => 0,
        }
    }

    /// One scan more in the state `s`.  Counters wrap around.
    pub open spec fn recorded(self, s: State) -> StateStats {
        match s {
            State::ValueWhitespace => StateStats {
                value_whitespace: self.value_whitespace.wrapping_add(1),
                ..self
            },
            State::StringChars => StateStats {
                string_chars: self.string_chars.wrapping_add(1),
                ..self
            },
            State::KeyChars => StateStats { key_chars: self.key_chars.wrapping_add(1), ..self },
            State::KeyEnd => StateStats { key_end: self.key_end.wrapping_add(1), ..self },
            State::AfterColon => StateStats {
                after_colon: self.after_colon.wrapping_add(1),
                ..self
            },
            State::AtomChars => StateStats { atom_chars: self.atom_chars.wrapping_add(1), ..self },
            State::ObjectStart => StateStats {
                object_start: self.object_start.wrapping_add(1),
                ..self
            },
            State::ArrayStart => StateStats {
                array_start: self.array_start.wrapping_add(1),
                ..self
            },
            State::AfterValue => StateStats {
                after_value: self.after_value.wrapping_add(1),
                ..self
            },
            State::Error => self,
        }
    }

    /// The scans of `t` more, one after the other.
    pub open spec fn counted(self, t: Seq<State>) -> StateStats
        decreases t.len(),
    {
        if t.len() == 0 {
            self
        } else {
            self.counted(t.drop_last()).recorded(t.last())
        }
    }

    /// All counters at zero.
    pub fn new() -> (r: StateStats)
        ensures
            r == StateStats::zero(),
    {
        StateStats {
            value_whitespace: 0,
            string_chars: 0,
            string_escape: 0,
            key_chars: 0,
            key_escape: 0,
            key_end: 0,
            after_colon: 0,
            atom_chars: 0,
            object_start: 0,
            array_start: 0,
            after_value: 0,
        }
    }

    /// Counts one scan in the state `s`.
    pub fn record(&mut self, s: State)
        ensures
            *final(self) == old(self).recorded(s),
    {
        match s {
            State::ValueWhitespace => {
                self.value_whitespace = self.value_whitespace.wrapping_add(1);
            },
            State::StringChars => {
                self.string_chars = self.string_chars.wrapping_add(1);
            },
            State::KeyChars => {
                self.key_chars = self.key_chars.wrapping_add(1);
            },
            State::KeyEnd => {
                self.key_end = self.key_end.wrapping_add(1);
            },
            State::AfterColon => {
                self.after_colon = self.after_colon.wrapping_add(1);
            },
            State::AtomChars => {
                self.atom_chars = self.atom_chars.wrapping_add(1);
            },
            State::ObjectStart => {
                self.object_start = self.object_start.wrapping_add(1);
            },
            State::ArrayStart => {
                self.array_start = self.array_start.wrapping_add(1);
            },
            State::AfterValue => {
                self.after_value = self.after_value.wrapping_add(1);
            },
            State::Error => {},
        }
    }
}

/// Sets all counters to zero.
pub fn reset(stats: &mut StateStats)
    ensures
        *final(stats) == StateStats::zero(),
{
    *stats = StateStats::new();
}

/// The counters as they are now.
pub fn get(stats: &StateStats) -> (r: StateStats)
    ensures
        r == *stats,
{
    *stats
}

/// The counter of a state shows after the scans of `t` how often the state occurs in `t`, on
/// top of what it showed before, modulo the width of the counter.  The two counters that
/// belong to no state do not change.
pub proof fn law_counted(stats: StateStats, t: Seq<State>, s: State)
    requires
        !(s is Error),
    ensures
        stats.counted(t).counter(s) == (stats.counter(s) + occurrences(t, s))
            % 0x1_0000_0000_0000_0000,
        stats.counted(t).string_escape == stats.string_escape,
        stats.counted(t).key_escape == stats.key_escape,
    decreases t.len(),
{
    if t.len() > 0 {
        law_counted(stats, t.drop_last(), s);
        let before = stats.counted(t.drop_last());
        if t.last() == s {
            assert(before.recorded(s).counter(s) == before.counter(s).wrapping_add(1));
        } else {
            assert(before.recorded(t.last()).counter(s) == before.counter(s));
        }
    }
}

/// A source gives at least one scan, if it is not empty, and at most one for each byte.
pub proof fn law_trail_len(b: Seq<u8>)
    ensures
        trail(b).len() <= b.len(),
        b.len() > 0 ==> trail(b).len() > 0,
{
    lemma_trail_len(Config::initial(), b, 0);
    lemma_scan_forward(Config::initial(), b, 0);
}

/// A scan goes forward, within the source.
proof fn lemma_scan_forward(c: Config, b: Seq<u8>, p: int)
    requires
        0 <= p <= b.len(),
    ensures
        p < b.len() ==> p < c.scan(b, p).1 <= b.len(),
{
    if p < b.len() {
        let end = if (p / 64 + 1) * 64 <= b.len() {
            (p / 64 + 1) * 64
        } else {
            b.len() as int
        };
        lemma_stop_within(c, b, p, end);
    }
}

/// A scan ends where it starts or later, and at `end` at the latest.
proof fn lemma_stop_within(c: Config, b: Seq<u8>, p: int, end: int)
    requires
        p <= end,
    ensures
        p <= c.stop(b, p, end) <= end,
    decreases end - p,
{
    if p < end && !c.stops_at(b[p]) {
        lemma_stop_within(c, b, p + 1, end);
    }
}

/// From any position at most one scan comes for each byte ahead.
proof fn lemma_trail_len(c: Config, b: Seq<u8>, p: int)
    requires
        0 <= p <= b.len(),
    ensures
        c.trail(b, p).len() <= b.len() - p,
    decreases b.len() - p,
{
    if p < b.len() && !(c.state is Error) {
        lemma_scan_forward(c, b, p);
        let (d, r) = c.scan(b, p);
        lemma_trail_len(d, b, r);
    }
}

/// The configuration and the position after `k` scans of the source `b`.
pub open spec fn after_scans(b: Seq<u8>, k: nat) -> (Config, int)
    decreases k,
{
    if k == 0 {
        (Config::initial(), 0)
    } else {
        let (c, p) = after_scans(b, (k - 1) as nat);
        c.scan(b, p)
    }
}

/// The trail of a source has one entry for each scan, the state that it starts in: the first
/// starts at the first byte, each further one where the one before ended, and there is none
/// behind an error or behind the end.
pub proof fn law_trail_is_scans(b: Seq<u8>)
    ensures
        forall|k: nat|
            #![trigger after_scans(b, k)]
            k < trail(b).len() ==> {
                let (c, p) = after_scans(b, k);
                &&& trail(b)[k as int] == c.state
                &&& !(c.state is Error)
                &&& 0 <= p < b.len()
            },
        ({
            let (c, p) = after_scans(b, trail(b).len());
            c.state is Error || p == b.len()
        }),
{
    lemma_trail_is_scans(b, 0);
}

proof fn lemma_trail_is_scans(b: Seq<u8>, i: nat)
    requires
        0 <= after_scans(b, i).1 <= b.len(),
    ensures
        ({
            let (c, p) = after_scans(b, i);
            let t = c.trail(b, p);
            &&& forall|k: nat|
                #![trigger after_scans(b, k)]
                i <= k < i + t.len() ==> {
                    let (d, q) = after_scans(b, k);
                    &&& t[k - i] == d.state
                    &&& !(d.state is Error)
                    &&& 0 <= q < b.len()
                }
            &&& ({
                let (d, q) = after_scans(b, i + t.len());
                d.state is Error || q == b.len()
            })
        }),
    decreases b.len() - after_scans(b, i).1,
{
    let (c, p) = after_scans(b, i);
    let t = c.trail(b, p);
    if p < b.len() && !(c.state is Error) {
        lemma_scan_forward(c, b, p);
        let (d, r) = c.scan(b, p);
        assert(after_scans(b, i + 1) == (d, r));
        lemma_trail_is_scans(b, i + 1);
        let tail = d.trail(b, r);
        assert(t =~= seq![c.state] + tail);
        assert forall|k: nat|
            #![trigger after_scans(b, k)]
            i <= k < i + t.len() implies {
            let (d, q) = after_scans(b, k);
            &&& t[k - i] == d.state
            &&& !(d.state is Error)
            &&& 0 <= q < b.len()
        } by {
            if k > i {
                assert(t[k - i] == tail[k - (i + 1)]);
            }
        }
        assert(i + t.len() == i + 1 + tail.len());
    } else {
        assert(t.len() == 0);
    }
}

/// A scan goes over bytes that do not end it, up to one that does or to the end of the chunk
/// of 64 bytes or of the source: inside a string or a key a quote or a backslash ends it,
/// inside an atom a byte that is at most `0x20`, a comma, a closing bracket or a closing
/// brace, and elsewhere a byte above `0x20`.
pub proof fn law_scan_extent(c: Config, b: Seq<u8>, p: int)
    requires
        0 <= p < b.len(),
    ensures
        ({
            let r = c.scan(b, p).1;
            let ends = |k: int|
                match c.state {
                    State::StringChars | State::KeyChars => b[k] == 34 || b[k] == 92,
                    State::AtomChars => b[k] <= 32 || b[k] == 44 || b[k] == 93 || b[k] == 125,
                    _ => b[k] > 32,
                };
            &&& p < r <= b.len()
            &&& r <= (p / 64 + 1) * 64
            &&& forall|k: int| p <= k < r - 1 ==> !#[trigger] ends(k)
            &&& ends(r - 1) || r == b.len() || r == (p / 64 + 1) * 64
        }),
{
    let end = if (p / 64 + 1) * 64 <= b.len() {
        (p / 64 + 1) * 64
    } else {
        b.len() as int
    };
    lemma_stop_within(c, b, p, end);
    lemma_stop_first(c, b, p, end);
}

proof fn lemma_stop_first(c: Config, b: Seq<u8>, p: int, end: int)
    requires
        p <= end,
    ensures
        ({
            let q = c.stop(b, p, end);
            &&& forall|k: int| p <= k < q ==> !c.stops_at(#[trigger] b[k])
            &&& q < end ==> c.stops_at(b[q])
        }),
    decreases end - p,
{
    lemma_stop_within(c, b, p, end);
    if p < end && !c.stops_at(b[p]) {
        lemma_stop_first(c, b, p + 1, end);
    }
}

/// One scan is counted by one counter, that of its state, which goes up by one and from its
/// greatest value to zero.  All other counters stay.
pub proof fn law_recorded(x: StateStats)
    ensures
        ({
            let up = |n: u64| if n == 0xffff_ffff_ffff_ffff {
                0u64
            } else {
                (n + 1) as u64
            };
            &&& x.recorded(State::ValueWhitespace) == (StateStats {
                value_whitespace: up(x.value_whitespace),
                ..x
            })
            &&& x.recorded(State::StringChars) == (StateStats {
                string_chars: up(x.string_chars),
                ..x
            })
            &&& x.recorded(State::KeyChars) == (StateStats { key_chars: up(x.key_chars), ..x })
            &&& x.recorded(State::KeyEnd) == (StateStats { key_end: up(x.key_end), ..x })
            &&& x.recorded(State::AfterColon) == (StateStats { after_colon: up(x.after_colon), ..x })
            &&& x.recorded(State::AtomChars) == (StateStats { atom_chars: up(x.atom_chars), ..x })
            &&& x.recorded(State::ObjectStart) == (StateStats {
                object_start: up(x.object_start),
                ..x
            })
            &&& x.recorded(State::ArrayStart) == (StateStats { array_start: up(x.array_start), ..x })
            &&& x.recorded(State::AfterValue) == (StateStats { after_value: up(x.after_value), ..x })
            &&& x.recorded(State::Error) == x
        }),
{
}

/// Counting a trail is counting its scans one after the other, and how often a state occurs
/// goes up by one with each of its scans.
pub proof fn law_counted_grows(x: StateStats, t: Seq<State>, s: State, r: State)
    ensures
        x.counted(seq![]) == x,
        x.counted(t.push(s)) == x.counted(t).recorded(s),
        occurrences(seq![], r) == 0,
        occurrences(t.push(s), r) == occurrences(t, r) + (if r == s {
            1int
        } else {
            0
        }),
{
    lemma_counted_next(x, t, s);
    assert(t.push(s).drop_last() =~= t);
}

}
