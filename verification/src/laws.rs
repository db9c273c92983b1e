//! What holds of every document, whatever it is parsed into.
use vstd::prelude::*;
use vstd::utf8::*;

use crate::cursor;
use crate::cursor::{TapeArrayIter, TapeObjectIter, TapeRef};
use crate::de::Visit;
use crate::dom;
use crate::grammar;
use crate::grammar::{Node, MAX_JSON_DEPTH};
use crate::json;
use crate::json::Json;
use crate::json_ref::JsonRef;
use crate::number;
use crate::spelling;
use crate::spelling::Dialect;
use crate::tape;
use crate::tape::{Entry, PAYLOAD_RANGE};
use crate::unescape;

verus! {

/// A text within the nesting limit spells one value at most.
pub proof fn law_unambiguous(b: Seq<u8>, n: Node, m: Node)
    requires
        valid_utf8(b),
        spelling::spells_padded(n, b, Dialect::Lenient),
        spelling::spells_padded(m, b, Dialect::Lenient),
        spelling::nesting(n) <= MAX_JSON_DEPTH,
        spelling::nesting(m) <= MAX_JSON_DEPTH,
    ensures
        n == m,
{
    spelling::law_document(b, n);
    spelling::law_document(b, m);
}

/// The last byte of a spelled value is not whitespace.
proof fn lemma_last_byte(n: Node, s: Seq<u8>)
    requires
        spelling::spells(n, s, Dialect::Lenient),
    ensures
        s.len() > 0,
        !grammar::is_whitespace(s.last()),
{
    spelling::lemma_names();
    if let Node::Number(t) = n {
        number::lemma_number_start(s);
        number::lemma_number_bytes(s);
        assert(number::is_number_byte(s[s.len() - 1]));
    }
}

/// Blank text is valid UTF-8.
proof fn lemma_blank_valid(w: Seq<u8>)
    requires
        spelling::is_blank(w, Dialect::Lenient),
    ensures
        valid_utf8(w),
{
    assert forall|i: int| 0 <= 0 <= i < w.len() <= w.len() implies is_leading_byte_width_1(
        #[trigger] w[i],
    ) by {
        assert(grammar::is_whitespace(w[i]));
    }
    assert(w.subrange(0, 0) =~= Seq::<u8>::empty());
    partial_valid_utf8_extend_ascii_block(w, 0, w.len() as int);
    assert(w.subrange(0, w.len() as int) =~= w);
}

/// Whitespace around a text makes no difference to what it spells.
proof fn lemma_padding(before: Seq<u8>, b: Seq<u8>, after: Seq<u8>, n: Node)
    requires
        spelling::is_blank(before, Dialect::Lenient),
        spelling::is_blank(after, Dialect::Lenient),
    ensures
        spelling::spells_padded(n, before + b + after, Dialect::Lenient)
            <==> spelling::spells_padded(n, b, Dialect::Lenient),
{
    let all = before + b + after;
    let p = before.len() as int;
    let len = all.len() as int;
    if spelling::spells_padded(n, b, Dialect::Lenient) {
        let (i, j) = choose|i: int, j: int|
            {
                &&& 0 <= i <= j <= b.len()
                &&& spelling::is_blank(b.subrange(0, i), Dialect::Lenient)
                &&& spelling::spells(n, #[trigger] b.subrange(i, j), Dialect::Lenient)
                &&& spelling::is_blank(b.subrange(j, b.len() as int), Dialect::Lenient)
            };
        assert(all.subrange(p + i, p + j) =~= b.subrange(i, j));
        assert forall|k: int| 0 <= k < p + i implies grammar::is_whitespace(
            #[trigger] all.subrange(0, p + i)[k],
        ) by {
            if k < p {
                assert(grammar::is_whitespace(before[k]));
            } else {
                assert(grammar::is_whitespace(b.subrange(0, i)[k - p]));
            }
        }
        assert forall|k: int| 0 <= k < len - p - j implies grammar::is_whitespace(
            #[trigger] all.subrange(p + j, len)[k],
        ) by {
            if k < b.len() - j {
                assert(grammar::is_whitespace(b.subrange(j, b.len() as int)[k]));
            } else {
                assert(grammar::is_whitespace(after[k - (b.len() - j)]));
            }
        }
    }
    if spelling::spells_padded(n, all, Dialect::Lenient) {
        let (i, j) = choose|i: int, j: int|
            {
                &&& 0 <= i <= j <= all.len()
                &&& spelling::is_blank(all.subrange(0, i), Dialect::Lenient)
                &&& spelling::spells(n, #[trigger] all.subrange(i, j), Dialect::Lenient)
                &&& spelling::is_blank(all.subrange(j, all.len() as int), Dialect::Lenient)
            };
        let s = all.subrange(i, j);
        spelling::lemma_first_byte(n, s);
        lemma_last_byte(n, s);
        assert(s[0] == all[i]);
        assert(s[s.len() - 1] == all[j - 1]);
        if i < p {
            assert(grammar::is_whitespace(before[i]));
            assert(all[i] == before[i]);
        }
        if j > p + b.len() {
            let k = j - 1 - p - b.len();
            if k < after.len() && k >= 0 {
                assert(grammar::is_whitespace(after[k]));
                assert(all[j - 1] == after[k]);
            }
        }
        if i >= p + b.len() {
            assert(grammar::is_whitespace(after[i - p - b.len()]));
            assert(all[i] == after[i - p - b.len()]);
        }
        if j <= p {
            assert(grammar::is_whitespace(before[j - 1]));
            assert(all[j - 1] == before[j - 1]);
        }
        assert(b.subrange(i - p, j - p) =~= s);
        assert forall|k: int| 0 <= k < i - p implies grammar::is_whitespace(
            #[trigger] b.subrange(0, i - p)[k],
        ) by {
            assert(grammar::is_whitespace(all.subrange(0, i)[p + k]));
        }
        assert forall|k: int| 0 <= k < b.len() - (j - p) implies grammar::is_whitespace(
            #[trigger] b.subrange(j - p, b.len() as int)[k],
        ) by {
            assert(grammar::is_whitespace(all.subrange(j, all.len() as int)[k]));
        }
    }
}

/// Whitespace before and after a text, control characters included, changes neither
/// whether it is accepted nor what it is read as.
pub proof fn law_surrounding_whitespace(before: Seq<u8>, b: Seq<u8>, after: Seq<u8>)
    requires
        valid_utf8(b),
        spelling::is_blank(before, Dialect::Lenient),
        spelling::is_blank(after, Dialect::Lenient),
    ensures
        grammar::document(before + b + after) == grammar::document(b),
{
    let all = before + b + after;
    lemma_blank_valid(before);
    lemma_blank_valid(after);
    valid_utf8_concat(before, b);
    valid_utf8_concat(before + b, after);
    if let Some(n) = grammar::document(b) {
        spelling::law_document(b, n);
        lemma_padding(before, b, after, n);
        spelling::law_document(all, n);
    }
    if let Some(n) = grammar::document(all) {
        spelling::law_document(all, n);
        lemma_padding(before, b, after, n);
        spelling::law_document(b, n);
    }
}

/// Every number in `v` has the syntax of a JSON number.
pub open spec fn numbers_valid(v: Json) -> bool
    decreases v,
{
    match v {
        Json::Number(t) => number::is_number(encode_utf8(t)),
        Json::Array(es) => forall|i: int| 0 <= i < es.len() ==> numbers_valid(#[trigger] es[i]),
        Json::Object(ms) => forall|i: int|
            0 <= i < ms.len() ==> numbers_valid((#[trigger] ms[i]).1),
        _ => true,
    }
}

/// One element before the others.
proof fn lemma_numbers_elements(es: Seq<Node>)
    requires
        es.len() > 0,
        numbers_valid(json::json(es[0])),
        numbers_valid(Json::Array(json::json_elements(es.drop_first()))),
    ensures
        numbers_valid(Json::Array(json::json_elements(es))),
{
    let all = json::json_elements(es);
    let rest = json::json_elements(es.drop_first());
    assert(all =~= seq![json::json(es[0])] + rest);
    assert(Json::Array(rest)->Array_0 == rest);
    assert forall|i: int| 0 <= i < all.len() implies numbers_valid(#[trigger] all[i]) by {
        if i > 0 {
            assert(all[i] == rest[i - 1]);
        } else {
            assert(all[0] == json::json(es[0]));
        }
    }
}

/// One member before the others.
proof fn lemma_numbers_members(ms: Seq<(Seq<char>, Node)>)
    requires
        ms.len() > 0,
        numbers_valid(json::json(ms[0].1)),
        numbers_valid(Json::Object(json::json_members(ms.drop_first()))),
    ensures
        numbers_valid(Json::Object(json::json_members(ms))),
{
    let all = json::json_members(ms);
    let rest = json::json_members(ms.drop_first());
    assert(all[0].1 == json::json(ms[0].1));
    assert(Json::Object(rest)->Object_0 == rest);
    assert forall|i: int| 0 <= i < all.len() implies numbers_valid((#[trigger] all[i]).1) by {
        if i > 0 {
            assert(all[i] == rest[i - 1]);
        }
    }
}

/// A value has valid numbers and no more events than bytes.
proof fn lemma_value(b: Seq<u8>, i: int, depth: nat)
    ensures
        grammar::value(b, i, depth) matches Some((n, j)) ==> {
            &&& i < j <= b.len()
            &&& numbers_valid(json::json(n))
            &&& grammar::events(n).len() <= j - i
        },
    decreases b.len() - i, 0nat,
{
    if let Some((n, j)) = grammar::value(b, i, depth) {
        if b[i] == grammar::LEFT_BRACE {
            lemma_members(b, i + 1, false, depth + 1);
        } else if b[i] == grammar::LEFT_BRACKET {
            lemma_elements(b, i + 1, false, depth + 1);
        } else if b[i] == grammar::QUOTE {
            grammar::lemma_string_end(b, i + 1);
        } else {
            grammar::lemma_atom_end(b, i);
            if j == i {
                assert(b.subrange(i, j) =~= Seq::<u8>::empty());
                grammar::lemma_no_empty_atom();
            }
        }
    }
}

proof fn lemma_elements(b: Seq<u8>, i: int, after_comma: bool, depth: nat)
    ensures
        grammar::elements(b, i, after_comma, depth) matches Some((es, e)) ==> {
            &&& i < e <= b.len()
            &&& numbers_valid(Json::Array(json::json_elements(es)))
            &&& grammar::element_events(es).len() + 1 <= e - i
        },
    decreases b.len() - i, 1nat,
{
    if let Some((es, e)) = grammar::elements(b, i, after_comma, depth) {
        let j = grammar::skip_whitespace(b, i);
        grammar::lemma_skip_whitespace(b, i);
        if b[j] == grammar::RIGHT_BRACKET && !after_comma {
            assert(json::json_elements(es).len() == 0);
            assert(grammar::element_events(es).len() == 0);
        } else {
            lemma_value(b, j, depth);
            let (n, k) = grammar::value(b, j, depth)->0;
            let m = grammar::skip_whitespace(b, k);
            grammar::lemma_skip_whitespace(b, k);
            if b[m] == grammar::COMMA {
                lemma_elements(b, m + 1, true, depth);
                let (rest, x) = grammar::elements(b, m + 1, true, depth)->0;
                assert(es.drop_first() =~= rest);
            } else {
                assert(es.drop_first() =~= seq![]);
                assert(json::json_elements(es.drop_first()).len() == 0);
                assert(grammar::element_events(es.drop_first()).len() == 0);
            }
            lemma_numbers_elements(es);
        }
    }
}

proof fn lemma_members(b: Seq<u8>, i: int, after_comma: bool, depth: nat)
    ensures
        grammar::members(b, i, after_comma, depth) matches Some((ms, e)) ==> {
            &&& i < e <= b.len()
            &&& numbers_valid(Json::Object(json::json_members(ms)))
            &&& grammar::member_events(ms).len() + 1 <= e - i
        },
    decreases b.len() - i, 1nat,
{
    if let Some((ms, e)) = grammar::members(b, i, after_comma, depth) {
        let j = grammar::skip_whitespace(b, i);
        grammar::lemma_skip_whitespace(b, i);
        if b[j] == grammar::RIGHT_BRACE && !after_comma {
            assert(json::json_members(ms).len() == 0);
            assert(grammar::member_events(ms).len() == 0);
        } else {
            grammar::lemma_string_end(b, j + 1);
            let q = grammar::string_end(b, j + 1)->0;
            let c = grammar::skip_whitespace(b, q + 1);
            grammar::lemma_skip_whitespace(b, q + 1);
            let v = grammar::skip_whitespace(b, c + 1);
            grammar::lemma_skip_whitespace(b, c + 1);
            lemma_value(b, v, depth);
            let (n, k) = grammar::value(b, v, depth)->0;
            let m = grammar::skip_whitespace(b, k);
            grammar::lemma_skip_whitespace(b, k);
            if b[m] == grammar::COMMA {
                lemma_members(b, m + 1, true, depth);
                let (rest, x) = grammar::members(b, m + 1, true, depth)->0;
                assert(ms.drop_first() =~= rest);
            } else {
                assert(ms.drop_first() =~= seq![]);
                assert(json::json_members(ms.drop_first()).len() == 0);
                assert(grammar::member_events(ms.drop_first()).len() == 0);
            }
            lemma_numbers_members(ms);
        }
    }
}

/// Every number in a document that is accepted has the syntax of a JSON number.
pub proof fn law_numbers_valid(b: Seq<u8>)
    requires
        grammar::document(b) is Some,
    ensures
        numbers_valid(json::json(grammar::document(b)->0)),
{
    lemma_value(b, grammar::skip_whitespace(b, 0), 0);
}

/// The tape of a document has no more entries than the document has bytes, so a document
/// of at most `PAYLOAD_RANGE` bytes always fits a tape.
pub proof fn law_tape_fits(b: Seq<u8>)
    requires
        grammar::document(b) is Some,
    ensures
        tape::tape_of(grammar::document(b)->0, 0).len() <= b.len(),
{
    let i = grammar::skip_whitespace(b, 0);
    grammar::lemma_skip_whitespace(b, 0);
    lemma_value(b, i, 0);
    dom::lemma_tape_len(grammar::document(b)->0, 0);
}

/// Reading the tape of `n` from its start gives the value of `n` and ends at its end.
pub proof fn law_tape_reads_back(n: Node)
    ensures
        cursor::value_at(tape::tape_of(n, 0), 0) == Some(
            (json::json(n), tape::tape_of(n, 0).len() as int),
        ),
{
    let t = tape::tape_of(n, 0);
    assert(t.subrange(0, t.len() as int) =~= t);
    dom::lemma_value_at(t, 0, n);
}

/// At index `i` of the tape `t` no container starts, or one that is whole: its end stands
/// where its start says, of the same kind, and a value fills the entries up to there.
pub open spec fn skip_holds(t: Seq<Entry>, i: int) -> bool {
    match t[i] {
        Entry::StartObject(end) => i < end < t.len() && t[end] is EndObject && (cursor::value_at(
            t,
            i,
        ) matches Some((_, next)) && next == end + 1),
        Entry::StartArray(end) => i < end < t.len() && t[end] is EndArray && (cursor::value_at(
            t,
            i,
        ) matches Some((_, next)) && next == end + 1),
        _ => true,
    }
}

/// The entries of `n` in a tape `t`, from `i` on, have whole containers only.
proof fn lemma_skips(t: Seq<Entry>, i: int, n: Node)
    requires
        0 <= i,
        i + tape::tape_of(n, i).len() <= t.len(),
        t.subrange(i, i + tape::tape_of(n, i).len()) == tape::tape_of(n, i),
    ensures
        forall|k: int|
            i <= k < i + tape::tape_of(n, i).len() ==> #[trigger] skip_holds(t, k),
    decreases n,
{
    let s = tape::tape_of(n, i);
    dom::lemma_value_at(t, i, n);
    assert(t[i] == s[0]);
    match n {
        Node::Object(ms) => {
            let inner = tape::tape_of_members(ms, i + 1);
            let end = i + 1 + inner.len();
            assert(s =~= seq![s[0]] + (inner + seq![Entry::EndObject]));
            dom::lemma_part(t, i, seq![s[0]], inner + seq![Entry::EndObject]);
            dom::lemma_part(t, i + 1, inner, seq![Entry::EndObject]);
            assert(t.subrange(end, end + 1)[0] == t[end]);
            lemma_skips_members(t, i + 1, end, ms);
        },
        Node::Array(es) => {
            let inner = tape::tape_of_elements(es, i + 1);
            let end = i + 1 + inner.len();
            assert(s =~= seq![s[0]] + (inner + seq![Entry::EndArray]));
            dom::lemma_part(t, i, seq![s[0]], inner + seq![Entry::EndArray]);
            dom::lemma_part(t, i + 1, inner, seq![Entry::EndArray]);
            assert(t.subrange(end, end + 1)[0] == t[end]);
            lemma_skips_elements(t, i + 1, end, es);
        },
        _ => {},
    }
}

proof fn lemma_skips_members(t: Seq<Entry>, i: int, end: int, ms: Seq<(Seq<char>, Node)>)
    requires
        0 <= i,
        end == i + tape::tape_of_members(ms, i).len(),
        end <= t.len(),
        t.subrange(i, end) == tape::tape_of_members(ms, i),
    ensures
        forall|k: int| i <= k < end ==> #[trigger] skip_holds(t, k),
    decreases ms,
{
    if ms.len() > 0 {
        let key = tape::key_entry(ms[0].0);
        let first = tape::tape_of(ms[0].1, i + 1);
        let j = i + 1 + first.len();
        let rest = tape::tape_of_members(ms.drop_first(), j);
        assert(tape::tape_of_members(ms, i) =~= seq![key] + (first + rest));
        dom::lemma_part(t, i, seq![key], first + rest);
        dom::lemma_part(t, i + 1, first, rest);
        assert(t.subrange(i, i + 1)[0] == t[i]);
        lemma_skips(t, i + 1, ms[0].1);
        lemma_skips_members(t, j, end, ms.drop_first());
    }
}

proof fn lemma_skips_elements(t: Seq<Entry>, i: int, end: int, es: Seq<Node>)
    requires
        0 <= i,
        end == i + tape::tape_of_elements(es, i).len(),
        end <= t.len(),
        t.subrange(i, end) == tape::tape_of_elements(es, i),
    ensures
        forall|k: int| i <= k < end ==> #[trigger] skip_holds(t, k),
    decreases es,
{
    if es.len() > 0 {
        let first = tape::tape_of(es[0], i);
        let j = i + first.len();
        let rest = tape::tape_of_elements(es.drop_first(), j);
        dom::lemma_part(t, i, first, rest);
        lemma_skips(t, i, es[0]);
        lemma_skips_elements(t, j, end, es.drop_first());
    }
}

/// In the tape of `n` every `StartObject` and `StartArray` carries the index of its
/// matching closer, and one step behind that index the next sibling or the end of the
/// enclosing container stands.
pub proof fn law_skip(n: Node)
    ensures
        forall|i: int|
            0 <= i < tape::tape_of(n, 0).len() ==> #[trigger] skip_holds(tape::tape_of(n, 0), i),
{
    let t = tape::tape_of(n, 0);
    assert(t.subrange(0, t.len() as int) =~= t);
    lemma_skips(t, 0, n);
}

/// The places of the members of an object are as many as the members: each has the key of
/// its member, and the value of the member is read there.
pub proof fn law_member_places(t: Seq<Entry>, i: int, end: int)
    requires
        cursor::members_at(t, i, end) is Some,
    ensures
        cursor::member_places(t, i, end).len() == cursor::members_at(t, i, end)->0.len(),
        forall|k: int|
            0 <= k < cursor::member_places(t, i, end).len() ==> {
                let (key, p) = #[trigger] cursor::member_places(t, i, end)[k];
                &&& key == cursor::members_at(t, i, end)->0[k].0
                &&& cursor::value_at(t, p) matches Some((v, _))
                &&& v == cursor::members_at(t, i, end)->0[k].1
            },
    decreases end - i,
{
    if i != end {
        if let Some((_, j)) = cursor::value_at(t, i + 1) {
            law_member_places(t, j, end);
            let places = cursor::member_places(t, i, end);
            let tail = cursor::member_places(t, j, end);
            assert forall|k: int| 0 <= k < places.len() implies {
                let (key, p) = #[trigger] places[k];
                &&& key == cursor::members_at(t, i, end)->0[k].0
                &&& cursor::value_at(t, p) matches Some((v, _))
                &&& v == cursor::members_at(t, i, end)->0[k].1
            } by {
                if k > 0 {
                    assert(places[k] == tail[k - 1]);
                }
            }
        }
    }
}

/// The places of the elements of an array are as many as the elements, and each element is
/// read at its place.
pub proof fn law_element_places(t: Seq<Entry>, i: int, end: int)
    requires
        cursor::elements_at(t, i, end) is Some,
    ensures
        cursor::element_places(t, i, end).len() == cursor::elements_at(t, i, end)->0.len(),
        forall|k: int|
            0 <= k < cursor::element_places(t, i, end).len() ==> {
                &&& cursor::value_at(t, #[trigger] cursor::element_places(t, i, end)[k]) matches Some(
                    (v, _),
                )
                &&& v == cursor::elements_at(t, i, end)->0[k]
            },
    decreases end - i,
{
    if i != end {
        if let Some((_, j)) = cursor::value_at(t, i) {
            law_element_places(t, j, end);
            let places = cursor::element_places(t, i, end);
            let tail = cursor::element_places(t, j, end);
            assert forall|k: int| 0 <= k < places.len() implies {
                &&& cursor::value_at(t, #[trigger] places[k]) matches Some((v, _))
                &&& v == cursor::elements_at(t, i, end)->0[k]
            } by {
                if k > 0 {
                    assert(places[k] == tail[k - 1]);
                }
            }
        }
    }
}

/// What a search by key finds is the place of the first member with that key.
pub proof fn law_find_place(places: Seq<(Seq<char>, int)>, key: Seq<char>, k: int)
    requires
        0 <= k <= places.len(),
        forall|j: int| 0 <= j < k ==> (#[trigger] places[j]).0 != key,
        k < places.len() ==> places[k].0 == key,
    ensures
        cursor::find_place(places, key) == (if k < places.len() {
            Some(places[k].1)
        } else {
            None
        }),
    decreases places.len(),
{
    if k > 0 {
        let tail = places.drop_first();
        assert(places[0].0 != key);
        assert forall|j: int| 0 <= j < k - 1 implies (#[trigger] tail[j]).0 != key by {
            assert(tail[j] == places[j + 1]);
        }
        law_find_place(tail, key, k - 1);
    }
}

/// A lookup by key returns the very cursor of the first pair with that key that an iteration
/// over the object yields: `it` has yielded `k` pairs, none of them with the key, and yields
/// one with the key now.
pub proof fn law_get_is_first_pair<'t, 'src: 't>(
    c: TapeRef<'t, 'src>,
    it: TapeObjectIter<'t, 'src>,
    k: int,
    key: &'t str,
    value: TapeRef<'t, 'src>,
    post: TapeObjectIter<'t, 'src>,
    found: TapeRef<'t, 'src>,
)
    requires
        it.tape() == c.tape(),
        0 <= k <= c.members().len(),
        it.places() == c.members().skip(k),
        forall|j: int| 0 <= j < k ==> (#[trigger] c.members()[j]).0 != key@,
        it.yields(Some((key, value)), post),
        c.is_member(key@, found),
    ensures
        found == value,
        c.members()[k] == (key@, value.position()),
        post.places() == c.members().skip(k + 1),
{
    assert(c.members().skip(k)[0] == c.members()[k]);
    assert(c.members().skip(k).drop_first() =~= c.members().skip(k + 1));
    law_find_place(c.members(), key@, k);
    cursor::lemma_same_cursor(found, value);
}

/// Indexing returns the very cursor that an iteration over the array yields at that count:
/// `it` has yielded `k` elements and yields the next one now.
pub proof fn law_index_is_nth<'t, 'src: 't>(
    c: TapeRef<'t, 'src>,
    it: TapeArrayIter<'t, 'src>,
    k: int,
    value: TapeRef<'t, 'src>,
    post: TapeArrayIter<'t, 'src>,
    found: TapeRef<'t, 'src>,
)
    requires
        it.tape() == c.tape(),
        0 <= k <= c.elements().len(),
        it.places() == c.elements().skip(k),
        it.yields(Some(value), post),
        c.is_element(k, found),
    ensures
        found == value,
        c.elements()[k] == value.position(),
        post.places() == c.elements().skip(k + 1),
{
    assert(c.elements().skip(k)[0] == c.elements()[k]);
    assert(c.elements().skip(k).drop_first() =~= c.elements().skip(k + 1));
    cursor::lemma_same_cursor(found, value);
}

/// The entries of `n` stand in the tape `t` from `i` on.
pub open spec fn stands(t: Seq<Entry>, i: int, n: Node) -> bool {
    let s = tape::tape_of(n, i);
    0 <= i && i + s.len() <= t.len() && t.subrange(i, i + s.len()) == s
}

/// Where the elements of an array stand, their places are.
proof fn lemma_stand_elements(t: Seq<Entry>, i: int, end: int, es: Seq<Node>)
    requires
        0 <= i,
        end == i + tape::tape_of_elements(es, i).len(),
        end <= t.len(),
        t.subrange(i, end) == tape::tape_of_elements(es, i),
    ensures
        cursor::element_places(t, i, end).len() == es.len(),
        forall|k: int|
            0 <= k < es.len() ==> stands(
                t,
                #[trigger] cursor::element_places(t, i, end)[k],
                es[k],
            ),
    decreases es.len(),
{
    if es.len() > 0 {
        let first = tape::tape_of(es[0], i);
        let j = i + first.len();
        let rest = tape::tape_of_elements(es.drop_first(), j);
        dom::lemma_part(t, i, first, rest);
        dom::lemma_value_at(t, i, es[0]);
        dom::lemma_tape_nonempty(es[0], i);
        lemma_stand_elements(t, j, end, es.drop_first());
        let places = cursor::element_places(t, i, end);
        let tail = cursor::element_places(t, j, end);
        assert(places =~= seq![i] + tail);
        assert forall|k: int| 0 <= k < es.len() implies stands(t, #[trigger] places[k], es[k]) by {
            if k > 0 {
                assert(places[k] == tail[k - 1]);
                assert(es.drop_first()[k - 1] == es[k]);
            }
        }
    }
}

/// Where the members of an object stand, their places are.
proof fn lemma_stand_members(t: Seq<Entry>, i: int, end: int, ms: Seq<(Seq<char>, Node)>)
    requires
        0 <= i,
        end == i + tape::tape_of_members(ms, i).len(),
        end <= t.len(),
        t.subrange(i, end) == tape::tape_of_members(ms, i),
    ensures
        cursor::member_places(t, i, end).len() == ms.len(),
        forall|k: int|
            0 <= k < ms.len() ==> {
                let (key, p) = #[trigger] cursor::member_places(t, i, end)[k];
                key == unescape::unescape(ms[k].0) && stands(t, p, ms[k].1)
            },
    decreases ms.len(),
{
    if ms.len() > 0 {
        let key = tape::key_entry(ms[0].0);
        let first = tape::tape_of(ms[0].1, i + 1);
        let j = i + 1 + first.len();
        let rest = tape::tape_of_members(ms.drop_first(), j);
        assert(tape::tape_of_members(ms, i) =~= seq![key] + (first + rest));
        dom::lemma_part(t, i, seq![key], first + rest);
        dom::lemma_part(t, i + 1, first, rest);
        assert(t.subrange(i, i + 1)[0] == t[i]);
        dom::lemma_value_at(t, i + 1, ms[0].1);
        if !ms[0].0.contains('\\') {
            unescape::lemma_unescape_plain(ms[0].0);
        }
        lemma_stand_members(t, j, end, ms.drop_first());
        let places = cursor::member_places(t, i, end);
        let tail = cursor::member_places(t, j, end);
        assert(places =~= seq![(unescape::unescape(ms[0].0), i + 1)] + tail);
        assert forall|k: int| 0 <= k < ms.len() implies {
            let (key, p) = #[trigger] places[k];
            key == unescape::unescape(ms[k].0) && stands(t, p, ms[k].1)
        } by {
            if k > 0 {
                assert(places[k] == tail[k - 1]);
                assert(ms.drop_first()[k - 1] == ms[k]);
            }
        }
    }
}

/// The element or the value of the member at `k` of `n`.
pub open spec fn child(n: Node, k: int) -> Option<Node> {
    match n {
        Node::Array(es) => if 0 <= k < es.len() {
            Some(es[k])
        } else {
            None
        },
        Node::Object(ms) => if 0 <= k < ms.len() {
            Some(ms[k].1)
        } else {
            None
        },
        _ => None,
    }
}

/// What `path` leads to from `n`: the child at the first number, of that the child at the
/// second, and so on.
pub open spec fn descendant(n: Node, path: Seq<int>) -> Option<Node>
    decreases path.len(),
{
    if path.len() == 0 {
        Some(n)
    } else {
        match child(n, path[0]) {
            Some(m) => descendant(m, path.drop_first()),
            None => None,
        }
    }
}

/// The place of the element or the member at `k` of the container that starts at `i`.
pub open spec fn child_place(t: Seq<Entry>, i: int, k: int) -> Option<int> {
    match t[i] {
        Entry::StartArray(end) => {
            let places = cursor::element_places(t, i + 1, end);
            if 0 <= k < places.len() {
                Some(places[k])
            } else {
                None
            }
        },
        Entry::StartObject(end) => {
            let places = cursor::member_places(t, i + 1, end);
            if 0 <= k < places.len() {
                Some(places[k].1)
            } else {
                None
            }
        },
        _ => None,
    }
}

/// The place that `path` leads to from the value that starts at `i`.
pub open spec fn place(t: Seq<Entry>, i: int, path: Seq<int>) -> Option<int>
    decreases path.len(),
{
    if path.len() == 0 {
        Some(i)
    } else {
        match child_place(t, i, path[0]) {
            Some(j) => place(t, j, path.drop_first()),
            None => None,
        }
    }
}

/// Where a value stands, the child at `k` stands at its place.
proof fn lemma_child_stands(t: Seq<Entry>, i: int, n: Node, k: int)
    requires
        stands(t, i, n),
        child(n, k) is Some,
    ensures
        child_place(t, i, k) matches Some(p) && stands(t, p, child(n, k)->0),
{
    let s = tape::tape_of(n, i);
    assert(t.subrange(i, i + s.len())[0] == t[i]);
    match n {
        Node::Object(ms) => {
            let inner = tape::tape_of_members(ms, i + 1);
            let end = i + 1 + inner.len();
            assert(s =~= seq![s[0]] + (inner + seq![Entry::EndObject]));
            dom::lemma_part(t, i, seq![s[0]], inner + seq![Entry::EndObject]);
            dom::lemma_part(t, i + 1, inner, seq![Entry::EndObject]);
            lemma_stand_members(t, i + 1, end, ms);
            assert(cursor::member_places(t, i + 1, end)[k].0 == unescape::unescape(ms[k].0));
        },
        Node::Array(es) => {
            let inner = tape::tape_of_elements(es, i + 1);
            let end = i + 1 + inner.len();
            assert(s =~= seq![s[0]] + (inner + seq![Entry::EndArray]));
            dom::lemma_part(t, i, seq![s[0]], inner + seq![Entry::EndArray]);
            dom::lemma_part(t, i + 1, inner, seq![Entry::EndArray]);
            lemma_stand_elements(t, i + 1, end, es);
        },
        _ => {},
    }
}

/// Where a value stands, what a path leads to stands at the place that the path leads to.
proof fn lemma_descendant_stands(t: Seq<Entry>, i: int, n: Node, path: Seq<int>)
    requires
        stands(t, i, n),
        descendant(n, path) is Some,
    ensures
        place(t, i, path) matches Some(p) && stands(t, p, descendant(n, path)->0),
    decreases path.len(),
{
    if path.len() > 0 {
        lemma_child_stands(t, i, n, path[0]);
        lemma_descendant_stands(
            t,
            child_place(t, i, path[0])->0,
            child(n, path[0])->0,
            path.drop_first(),
        );
    }
}

/// Any value of a document, however deep, stands on the tape of the document at the place
/// where the same steps over the tape lead, entry by entry.
pub proof fn law_nested_value(n: Node, path: Seq<int>)
    requires
        descendant(n, path) is Some,
    ensures
        place(tape::tape_of(n, 0), 0, path) matches Some(p) && stands(
            tape::tape_of(n, 0),
            p,
            descendant(n, path)->0,
        ),
{
    let t = tape::tape_of(n, 0);
    assert(t.subrange(0, t.len() as int) =~= t);
    lemma_descendant_stands(t, 0, n, path);
}

/// A string without escape sequences is offered to a deserializer as text that borrows from
/// the source, however deep in the document it stands; one with escape sequences is offered
/// decoded, as text that borrows from the tape.
pub proof fn law_zero_copy<'t, 'src: 't>(
    n: Node,
    path: Seq<int>,
    raw: Seq<char>,
    c: TapeRef<'t, 'src>,
    visit: Visit<'t, 'src>,
)
    requires
        descendant(n, path) == Some(Node::String(raw)),
        c.entries() == tape::tape_of(n, 0),
        place(c.entries(), 0, path) == Some(c.position()),
        visit.offers(c),
    ensures
        if raw.contains('\\') {
            visit matches Visit::Str(s) && s@ == unescape::unescape(raw)
        } else {
            visit matches Visit::BorrowedStr(s) && s@ == raw
        },
{
    law_nested_value(n, path);
    let t = c.entries();
    let p = c.position();
    let s = tape::tape_of(Node::String(raw), p);
    assert(t.subrange(p, p + s.len())[0] == t[p]);
    assert(s[0] == tape::string_entry(raw));
}

/// An index that fits the payload of an entry comes back from it unchanged.
pub proof fn law_payload(v: int)
    requires
        0 <= v < PAYLOAD_RANGE,
    ensures
        tape::payload_field(v) == v,
{
}

/// The hexadecimal digit with the value `d`.
pub open spec fn hex_char(d: int) -> char {
    if d < 10 {
        ('0' as int + d) as char
    } else {
        ('a' as int + d - 10) as char
    }
}

/// The escape sequence `\uXXXX` for the UTF-16 code unit `u`.
pub open spec fn unit_escape(u: int) -> Seq<char> {
    seq![
        '\\',
        'u',
        hex_char(u / 4096),
        hex_char(u / 256 % 16),
        hex_char(u / 16 % 16),
        hex_char(u % 16),
    ]
}

/// The escape sequences for the UTF-16 code units of `c`: one, or a surrogate pair.
pub open spec fn unicode_escape(c: char) -> Seq<char> {
    if (c as int) < 0x10000 {
        unit_escape(c as int)
    } else {
        unit_escape(0xd800 + (c as int - 0x10000) / 0x400) + unit_escape(
            0xdc00 + (c as int - 0x10000) % 0x400,
        )
    }
}

/// A hexadecimal digit has its value.
proof fn lemma_hex_char(d: int)
    requires
        0 <= d < 16,
    ensures
        unescape::hex_digit(hex_char(d)) == Some(d),
{
}

/// The digits of a code unit spell it.
proof fn lemma_unit_escape(u: int, rest: Seq<char>)
    requires
        0 <= u < 0x10000,
    ensures
        unescape::hex4((unit_escape(u) + rest).skip(2)) == Some(u),
        (unit_escape(u) + rest).skip(6) == rest,
{
    let s = (unit_escape(u) + rest).skip(2);
    assert(s[0] == hex_char(u / 4096));
    assert(s[1] == hex_char(u / 256 % 16));
    assert(s[2] == hex_char(u / 16 % 16));
    assert(s[3] == hex_char(u % 16));
    lemma_hex_char(u / 4096);
    lemma_hex_char(u / 256 % 16);
    lemma_hex_char(u / 16 % 16);
    lemma_hex_char(u % 16);
    assert((unit_escape(u) + rest).skip(6) =~= rest);
}

/// An escape sequence for a code unit is decoded by its number, and with the next one if
/// the two make a surrogate pair.
proof fn lemma_unescape_unit(u: int, rest: Seq<char>)
    requires
        0 <= u < 0x10000,
    ensures
        unescape::unescape(unit_escape(u) + rest) == (match unescape::low_surrogate(rest) {
            Some(lo) if 0xd800 <= u <= 0xdbff => unescape::scalar_text(
                0x10000 + (u - 0xd800) * 0x400 + (lo - 0xdc00),
            ) + unescape::unescape(rest.skip(6)),
            _ => unescape::scalar_text(u) + unescape::unescape(rest),
        }),
{
    let s = unit_escape(u) + rest;
    lemma_unit_escape(u, rest);
    assert(s[0] == '\\' && s[1] == 'u');
    assert(unescape::short_escape('u') is None);
    if unescape::low_surrogate(rest) is Some {
        assert(s.skip(12) =~= rest.skip(6));
    }
}

/// Every character is decoded from the escape sequences of its UTF-16 code units, whatever
/// follows.
pub proof fn law_unicode_escape(c: char, rest: Seq<char>)
    ensures
        unescape::unescape(unicode_escape(c) + rest) == seq![c] + unescape::unescape(rest),
{
    let v = c as int;
    if v < 0x10000 {
        lemma_unescape_unit(v, rest);
    } else {
        let hi = 0xd800 + (v - 0x10000) / 0x400;
        let lo = 0xdc00 + (v - 0x10000) % 0x400;
        let tail = unit_escape(lo) + rest;
        assert(unicode_escape(c) + rest =~= unit_escape(hi) + tail);
        lemma_unescape_unit(hi, tail);
        lemma_unit_escape(lo, rest);
        assert(tail[0] == '\\' && tail[1] == 'u');
        assert(unescape::low_surrogate(tail) == Some(lo));
        assert(0x10000 + (hi - 0xd800) * 0x400 + (lo - 0xdc00) == v);
    }
}

/// An escape sequence that is not supported is passed through verbatim: one with an unknown
/// character, and `\u` without four hexadecimal digits.
pub proof fn law_unknown_escape(c: char, rest: Seq<char>)
    requires
        unescape::short_escape(c) is None,
        c == 'u' ==> unescape::hex4(rest) is None,
    ensures
        unescape::unescape(seq!['\\', c] + rest) == seq!['\\', c] + unescape::unescape(rest),
{
    assert((seq!['\\', c] + rest).skip(2) =~= rest);
}

/// Text without a backslash stands for itself.
pub proof fn law_plain_text(t: Seq<char>)
    requires
        !t.contains('\\'),
    ensures
        unescape::unescape(t) == t,
{
    unescape::lemma_unescape_plain(t);
}

/// An index keeps its low 60 bits in the payload of an entry.
pub proof fn law_payload_wraps(v: int)
    requires
        0 <= v,
    ensures
        0 <= tape::payload_field(v) < 0x1000_0000_0000_0000,
        tape::payload_field(v + 0x1000_0000_0000_0000) == tape::payload_field(v),
        v < 0x1000_0000_0000_0000 ==> tape::payload_field(v) == v,
{
}

/// The payload of an entry with text is the length of the text in bytes.
pub proof fn law_text_payload(t: Seq<char>)
    requires
        encode_utf8(t).len() <= usize::MAX,
        encode_utf8(t).len() < 0x1000_0000_0000_0000,
    ensures
        tape::text_payload(t) == encode_utf8(t).len(),
{
}

/// A tape has escapes exactly if some entry is an escaped string or an escaped key.
pub proof fn law_escapes(t: Seq<Entry>)
    ensures
        tape::any_escaped(t) <==> exists|i: int|
            0 <= i < t.len() && (#[trigger] t[i] is EscapedString || t[i] is EscapedKey),
{
    if tape::any_escaped(t) {
        let i = choose|i: int| 0 <= i < t.len() && (#[trigger] t[i]).is_escaped();
        assert(t[i] is EscapedString || t[i] is EscapedKey);
    }
    if exists|i: int| 0 <= i < t.len() && (#[trigger] t[i] is EscapedString || t[i] is EscapedKey) {
        let i = choose|i: int|
            0 <= i < t.len() && (#[trigger] t[i] is EscapedString || t[i] is EscapedKey);
        assert(t[i].is_escaped());
    }
}

}
