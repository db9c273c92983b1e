//! Parsing into a tape.
use vstd::prelude::*;
use vstd::utf8::*;

use crate::cursor;
use crate::grammar;
use crate::grammar::{Event, Node};
use crate::json;
use crate::parse::parse_with;
use crate::sax;
use crate::sax::Sax;
use crate::tape;
use crate::tape::{Draft, Entry, Tape, TapeWriter, PAYLOAD_RANGE};
use crate::unescape;

verus! {

/// Events in two parts lead to the same as one part after the other.
proof fn lemma_after_concat(d: Draft, x: Seq<Event>, y: Seq<Event>)
    ensures
        d.after_all(x + y) == d.after_all(x).after_all(y),
    decreases y.len(),
{
    if y.len() == 0 {
        assert(x + y =~= x);
    } else {
        let z = x + y;
        assert(z.drop_last() =~= x + y.drop_last());
        assert(z.last() == y.last());
        lemma_after_concat(d, x, y.drop_last());
    }
}

/// A single event leads one step on.
proof fn lemma_after_one(d: Draft, e: Event)
    ensures
        d.after_all(seq![e]) == d.after(e),
{
    assert(seq![e].drop_last() =~= seq![]);
    assert(d.after_all(seq![]) == d);
    assert(seq![e].last() == e);
}

/// The open containers have entries.
spec fn in_range(d: Draft) -> bool {
    forall|i: int| 0 <= i < d.open.len() ==> 0 <= #[trigger] d.open[i] < d.entries.len()
}

/// Every event adds one entry.
proof fn lemma_after_len(d: Draft, es: Seq<Event>)
    requires
        in_range(d),
    ensures
        in_range(d.after_all(es)),
        d.after_all(es).entries.len() == d.entries.len() + es.len(),
    decreases es.len(),
{
    if es.len() > 0 {
        lemma_after_len(d, es.drop_last());
        let m = d.after_all(es.drop_last());
        if m.open.len() > 0 {
            assert(0 <= m.open[m.open.len() - 1] < m.entries.len());
        }
        let a = m.after(es.last());
        assert forall|i: int| 0 <= i < a.open.len() implies 0 <= #[trigger] a.open[i]
            < a.entries.len() by {
            if i < m.open.len() {
                assert(a.open[i] == m.open[i]);
            }
        }
    }
}

/// A tape has as many entries as there are events.
pub proof fn lemma_tape_len(n: Node, base: int)
    ensures
        tape::tape_of(n, base).len() == grammar::events(n).len(),
    decreases n,
{
    match n {
        Node::Object(ms) => lemma_members_len(ms, base + 1),
        Node::Array(es) => lemma_elements_len(es, base + 1),
        _ => {},
    }
}

proof fn lemma_members_len(ms: Seq<(Seq<char>, Node)>, base: int)
    ensures
        tape::tape_of_members(ms, base).len() == grammar::member_events(ms).len(),
    decreases ms,
{
    if ms.len() > 0 {
        let first = tape::tape_of(ms[0].1, base + 1);
        lemma_tape_len(ms[0].1, base + 1);
        lemma_members_len(ms.drop_first(), base + 1 + first.len());
    }
}

proof fn lemma_elements_len(es: Seq<Node>, base: int)
    ensures
        tape::tape_of_elements(es, base).len() == grammar::element_events(es).len(),
    decreases es,
{
    if es.len() > 0 {
        let first = tape::tape_of(es[0], base);
        lemma_tape_len(es[0], base);
        lemma_elements_len(es.drop_first(), base + first.len());
    }
}

/// `d` with the entries `t` behind its own.
spec fn extended(d: Draft, t: Seq<Entry>) -> Draft {
    Draft {
        entries: d.entries + t,
        open: d.open,
        has_escapes: d.has_escapes || tape::any_escaped(t),
    }
}

/// Entries added in two parts are the same as all at once.
proof fn lemma_extended_concat(d: Draft, x: Seq<Entry>, y: Seq<Entry>)
    ensures
        extended(extended(d, x), y) == extended(d, x + y),
{
    assert((d.entries + x) + y =~= d.entries + (x + y));
    lemma_any_escaped_concat(x, y);
}

proof fn lemma_any_escaped_concat(x: Seq<Entry>, y: Seq<Entry>)
    ensures
        tape::any_escaped(x + y) == (tape::any_escaped(x) || tape::any_escaped(y)),
{
    let z = x + y;
    if tape::any_escaped(x) {
        let i = choose|i: int| 0 <= i < x.len() && (#[trigger] x[i]).is_escaped();
        assert(z[i].is_escaped());
    }
    if tape::any_escaped(y) {
        let i = choose|i: int| 0 <= i < y.len() && (#[trigger] y[i]).is_escaped();
        assert(z[x.len() + i].is_escaped());
    }
    if tape::any_escaped(z) {
        let i = choose|i: int| 0 <= i < z.len() && (#[trigger] z[i]).is_escaped();
        if i < x.len() {
            assert(x[i].is_escaped());
        } else {
            assert(y[i - x.len()].is_escaped());
        }
    }
}

/// Pushing an entry adds it.
proof fn lemma_push(d: Draft, e: Entry)
    ensures
        d.push(e) == extended(d, seq![e]),
{
    assert(d.entries.push(e) =~= d.entries + seq![e]);
    assert(seq![e][0] == e);
    assert(tape::any_escaped(seq![e]) == e.is_escaped()) by {
        if e.is_escaped() {
            assert(seq![e][0].is_escaped());
        }
    }
}

/// The events of a container: its start is told where its end is.
proof fn lemma_container(d: Draft, start: Entry, filled: Entry, inner: Seq<Entry>, end: Entry)
    requires
        start is StartObject && end is EndObject && filled == Entry::StartObject(
            (d.entries.len() + 1 + inner.len()) as int,
        ) || start is StartArray && end is EndArray && filled == Entry::StartArray(
            (d.entries.len() + 1 + inner.len()) as int,
        ),
        d.entries.len() + 2 + inner.len() <= PAYLOAD_RANGE,
    ensures
        extended(d.start(start), inner).end(end) == extended(
            d,
            seq![filled] + inner + seq![end],
        ),
{
    let d1 = d.start(start);
    let d2 = extended(d1, inner);
    let d3 = d2.end(end);
    let at = d.entries.len() as int;
    let all = seq![filled] + inner + seq![end];
    assert(d1.open.last() == at);
    assert(d2.open == d1.open);
    assert(d2.entries.len() == at + 1 + inner.len());
    assert(tape::payload_field(d2.entries.len() as int) == d2.entries.len());
    assert(d2.entries.push(end)[at] == start);
    assert(d3.entries =~= d.entries + all);
    assert(d3.open =~= d.open);
    lemma_any_escaped_concat(seq![filled] + inner, seq![end]);
    lemma_any_escaped_concat(seq![filled], inner);
    assert(!tape::any_escaped(seq![filled]));
    assert(!tape::any_escaped(seq![end]));
}

/// The events of `n` add the entries of `n`.
proof fn lemma_draft_node(d: Draft, n: Node)
    requires
        d.entries.len() + tape::tape_of(n, d.entries.len() as int).len() <= PAYLOAD_RANGE,
    ensures
        d.after_all(grammar::events(n)) == extended(d, tape::tape_of(n, d.entries.len() as int)),
    decreases n,
{
    let base = d.entries.len() as int;
    match n {
        Node::Object(ms) => {
            let inner = tape::tape_of_members(ms, base + 1);
            let filled = Entry::StartObject(base + 1 + inner.len());
            let mid = grammar::member_events(ms);
            let d1 = d.start(Entry::StartObject(0));
            lemma_after_one(d, Event::StartObject);
            lemma_after_concat(d, seq![Event::StartObject], mid);
            lemma_draft_members(d1, ms);
            lemma_after_concat(d, seq![Event::StartObject] + mid, seq![Event::EndObject]);
            lemma_after_one(extended(d1, inner), Event::EndObject);
            lemma_container(d, Entry::StartObject(0), filled, inner, Entry::EndObject);
        },
        Node::Array(es) => {
            let inner = tape::tape_of_elements(es, base + 1);
            let filled = Entry::StartArray(base + 1 + inner.len());
            let mid = grammar::element_events(es);
            let d1 = d.start(Entry::StartArray(0));
            lemma_after_one(d, Event::StartArray);
            lemma_after_concat(d, seq![Event::StartArray], mid);
            lemma_draft_elements(d1, es);
            lemma_after_concat(d, seq![Event::StartArray] + mid, seq![Event::EndArray]);
            lemma_after_one(extended(d1, inner), Event::EndArray);
            lemma_container(d, Entry::StartArray(0), filled, inner, Entry::EndArray);
        },
        _ => {
            let e = grammar::events(n)[0];
            assert(grammar::events(n) =~= seq![e]);
            lemma_after_one(d, e);
            let x = tape::tape_of(n, base)[0];
            assert(tape::tape_of(n, base) =~= seq![x]);
            lemma_push(d, x);
        },
    }
}

proof fn lemma_draft_members(d: Draft, ms: Seq<(Seq<char>, Node)>)
    requires
        d.entries.len() + tape::tape_of_members(ms, d.entries.len() as int).len() <= PAYLOAD_RANGE,
    ensures
        d.after_all(grammar::member_events(ms)) == extended(
            d,
            tape::tape_of_members(ms, d.entries.len() as int),
        ),
    decreases ms,
{
    let base = d.entries.len() as int;
    if ms.len() == 0 {
        assert(d.entries + seq![] =~= d.entries);
        assert(extended(d, seq![]) =~= d);
    } else {
        let key = grammar::key_event(ms[0].0);
        let k = tape::key_entry(ms[0].0);
        let first = tape::tape_of(ms[0].1, base + 1);
        let rest = tape::tape_of_members(ms.drop_first(), base + 1 + first.len());
        let d1 = extended(d, seq![k]);
        let d2 = extended(d1, first);
        lemma_after_one(d, key);
        lemma_push(d, k);
        lemma_draft_node(d1, ms[0].1);
        lemma_draft_members(d2, ms.drop_first());
        lemma_after_concat(d, seq![key], grammar::events(ms[0].1));
        lemma_after_concat(
            d,
            seq![key] + grammar::events(ms[0].1),
            grammar::member_events(ms.drop_first()),
        );
        lemma_extended_concat(d, seq![k], first);
        lemma_extended_concat(d, seq![k] + first, rest);
    }
}

proof fn lemma_draft_elements(d: Draft, es: Seq<Node>)
    requires
        d.entries.len() + tape::tape_of_elements(es, d.entries.len() as int).len() <= PAYLOAD_RANGE,
    ensures
        d.after_all(grammar::element_events(es)) == extended(
            d,
            tape::tape_of_elements(es, d.entries.len() as int),
        ),
    decreases es,
{
    let base = d.entries.len() as int;
    if es.len() == 0 {
        assert(d.entries + seq![] =~= d.entries);
        assert(extended(d, seq![]) =~= d);
    } else {
        let first = tape::tape_of(es[0], base);
        let rest = tape::tape_of_elements(es.drop_first(), base + first.len());
        let d1 = extended(d, first);
        lemma_draft_node(d, es[0]);
        lemma_draft_elements(d1, es.drop_first());
        lemma_after_concat(
            d,
            grammar::events(es[0]),
            grammar::element_events(es.drop_first()),
        );
        lemma_extended_concat(d, first, rest);
    }
}

/// A tape writer that has taken the events `es` holds what they lead to.
proof fn lemma_reaches_draft<'a>(w0: TapeWriter<'a>, es: Seq<Event>, w: TapeWriter<'a>)
    requires
        sax::reaches(w0, es, w),
    ensures
        w@ == w0@.after_all(es),
    decreases es.len(),
{
    if es.len() > 0 {
        let m = choose|m: TapeWriter<'a>|
            sax::reaches(w0, es.drop_last(), m) && #[trigger] TapeWriter::steps(m, es.last(), w);
        lemma_reaches_draft(w0, es.drop_last(), m);
    }
}

/// Where the entries of `n` stand in a tape, they are read back as the value of `n`.
pub proof fn lemma_value_at(t: Seq<Entry>, i: int, n: Node)
    requires
        0 <= i,
        i + tape::tape_of(n, i).len() <= t.len(),
        t.subrange(i, i + tape::tape_of(n, i).len()) == tape::tape_of(n, i),
    ensures
        cursor::value_at(t, i) == Some((json::json(n), i + tape::tape_of(n, i).len())),
    decreases n,
{
    let s = tape::tape_of(n, i);
    match n {
        Node::Object(ms) => {
            let inner = tape::tape_of_members(ms, i + 1);
            let end = i + 1 + inner.len();
            assert(s.len() == inner.len() + 2);
            assert(t[i] == s[0]);
            assert(t[end] == s[s.len() - 1]);
            assert(t.subrange(i + 1, end) =~= inner) by {
                assert forall|k: int| 0 <= k < inner.len() implies t.subrange(i + 1, end)[k]
                    == inner[k] by {
                    assert(s[k + 1] == inner[k]);
                    assert(t.subrange(i, i + s.len())[k + 1] == s[k + 1]);
                }
            }
            lemma_members_at(t, i + 1, end, ms);
        },
        Node::Array(es) => {
            let inner = tape::tape_of_elements(es, i + 1);
            let end = i + 1 + inner.len();
            assert(s.len() == inner.len() + 2);
            assert(t[i] == s[0]);
            assert(t[end] == s[s.len() - 1]);
            assert(t.subrange(i + 1, end) =~= inner) by {
                assert forall|k: int| 0 <= k < inner.len() implies t.subrange(i + 1, end)[k]
                    == inner[k] by {
                    assert(s[k + 1] == inner[k]);
                    assert(t.subrange(i, i + s.len())[k + 1] == s[k + 1]);
                }
            }
            lemma_elements_at(t, i + 1, end, es);
        },
        Node::String(raw) => {
            assert(t[i] == s[0]);
            if !raw.contains('\\') {
                unescape::lemma_unescape_plain(raw);
            }
        },
        _ => {
            assert(t[i] == s[0]);
        },
    }
}

/// A part of a part of a sequence.
pub proof fn lemma_part<A>(t: Seq<A>, i: int, x: Seq<A>, y: Seq<A>)
    requires
        0 <= i,
        i + x.len() + y.len() <= t.len(),
        t.subrange(i, i + (x + y).len()) == x + y,
    ensures
        t.subrange(i, i + x.len()) == x,
        t.subrange(i + x.len(), i + x.len() + y.len()) == y,
{
    let z = t.subrange(i, i + (x + y).len());
    assert forall|k: int| 0 <= k < x.len() implies t.subrange(i, i + x.len())[k] == x[k] by {
        assert(z[k] == (x + y)[k]);
    }
    assert(t.subrange(i, i + x.len()) =~= x);
    assert forall|k: int| 0 <= k < y.len() implies t.subrange(i + x.len(), i + x.len() + y.len())[k]
        == y[k] by {
        assert((x + y)[x.len() + k] == y[k]);
        assert(z[x.len() + k] == t[i + x.len() + k]);
    }
    assert(t.subrange(i + x.len(), i + x.len() + y.len()) =~= y);
}

proof fn lemma_members_at(t: Seq<Entry>, i: int, end: int, ms: Seq<(Seq<char>, Node)>)
    requires
        0 <= i,
        end == i + tape::tape_of_members(ms, i).len(),
        end <= t.len(),
        t.subrange(i, end) == tape::tape_of_members(ms, i),
    ensures
        cursor::members_at(t, i, end) == Some(json::json_members(ms)),
    decreases ms,
{
    if ms.len() > 0 {
        let k = tape::key_entry(ms[0].0);
        let first = tape::tape_of(ms[0].1, i + 1);
        let j = i + 1 + first.len();
        let rest = tape::tape_of_members(ms.drop_first(), j);
        assert(tape::tape_of_members(ms, i) =~= seq![k] + (first + rest));
        lemma_part(t, i, seq![k], first + rest);
        lemma_part(t, i + 1, first, rest);
        assert(t.subrange(i, i + 1)[0] == t[i]);
        lemma_value_at(t, i + 1, ms[0].1);
        lemma_members_at(t, j, end, ms.drop_first());
        if !ms[0].0.contains('\\') {
            unescape::lemma_unescape_plain(ms[0].0);
        }
    }
}

proof fn lemma_elements_at(t: Seq<Entry>, i: int, end: int, es: Seq<Node>)
    requires
        0 <= i,
        end == i + tape::tape_of_elements(es, i).len(),
        end <= t.len(),
        t.subrange(i, end) == tape::tape_of_elements(es, i),
    ensures
        cursor::elements_at(t, i, end) == Some(json::json_elements(es)),
    decreases es,
{
    if es.len() > 0 {
        let first = tape::tape_of(es[0], i);
        let j = i + first.len();
        let rest = tape::tape_of_elements(es.drop_first(), j);
        lemma_part(t, i, first, rest);
        lemma_tape_nonempty(es[0], i);
        lemma_value_at(t, i, es[0]);
        lemma_elements_at(t, j, end, es.drop_first());
    }
}

/// Every value has an entry.
pub proof fn lemma_tape_nonempty(n: Node, base: int)
    ensures
        tape::tape_of(n, base).len() > 0,
{
}

/// Parses `src` into a flat [`Tape`].
///
/// Returns `None` if the input is not valid JSON, nests deeper than
/// [`crate::MAX_JSON_DEPTH`], or has more tokens than a tape can index.
///
/// `StartObject` and `StartArray` entries carry the index of the matching closer, so
/// entire subtrees can be skipped in one step.  Access the tape by [`Tape::root`], which
/// returns a [`crate::TapeRef`] cursor.
pub fn parse_to_dom<'a>(src: &'a str) -> (r: Option<Tape<'a>>)
    ensures
        match grammar::document(encode_utf8(src@)) {
            Some(n) if tape::tape_of(n, 0).len() <= PAYLOAD_RANGE => {
                &&& r matches Some(t)
                &&& t@ == tape::tape_of(n, 0)
                &&& t.has_escapes == tape::any_escaped(t@)
                &&& t.wf()
                &&& t.json() == json::json(n)
            },
            _ => r is None,
        },
{
    let writer = TapeWriter::new();
    let ghost w0 = writer;
    let r = parse_with(src, writer);
    proof {
        if let Some(n) = grammar::document(encode_utf8(src@)) {
            let es = grammar::events(n);
            let t = tape::tape_of(n, 0);
            let w = choose|w: TapeWriter<'a>| sax::reaches(w0, es, w) && #[trigger] w.finishes(r);
            lemma_reaches_draft(w0, es, w);
            lemma_after_len(w0@, es);
            lemma_tape_len(n, 0);
            if t.len() <= PAYLOAD_RANGE {
                lemma_draft_node(w0@, n);
                assert(w@.entries =~= t);
                assert(t.subrange(0, t.len() as int) =~= t);
                lemma_value_at(t, 0, n);
            }
        }
    }
    r
}

}
