//! How what is read from a value relates to what the value is made of: members, elements and
//! their number, the value of a document, and the events and tape entries that report it.
use std::borrow::Cow;
use vstd::prelude::*;
use vstd::std_specs::cmp::PartialEqSpec;
use vstd::utf8::*;

use crate::cursor;
use crate::cursor::{TapeArrayIter, TapeObjectIter, TapeRef};
use crate::de::Visit;
use crate::grammar;
use crate::grammar::{Event, Node};
use crate::json;
use crate::json::Json;
use crate::json_ref;
use crate::json_ref::JsonRef;
use crate::laws;
use crate::parse;
use crate::sax;
use crate::sax::Sax;
use crate::tape;
use crate::tape::{Draft, Entry, Tape, TapeEntry};
use crate::unescape;
use crate::value;
use crate::value::{OpenTree, Sketch, Text, Tree, Value};

verus! {

/// A lookup finds the first member with the key, whatever its value is.
pub proof fn law_member_found(ms: Seq<(Seq<char>, Json)>, k: int)
    requires
        0 <= k < ms.len(),
        forall|j: int| 0 <= j < k ==> (#[trigger] ms[j]).0 != ms[k].0,
    ensures
        json_ref::member(Some(Json::Object(ms)), ms[k].0) == Some(ms[k].1),
    decreases k,
{
    if k > 0 {
        let tail = ms.drop_first();
        assert(ms[0].0 != ms[k].0);
        assert(tail[k - 1] == ms[k]);
        assert forall|j: int| 0 <= j < k - 1 implies (#[trigger] tail[j]).0 != tail[k - 1].0 by {
            assert(tail[j] == ms[j + 1]);
        }
        law_member_found(tail, k - 1);
        assert(json_ref::member(Some(Json::Object(tail)), ms[k].0) == json::lookup(tail, ms[k].0));
    }
}

/// A lookup finds nothing exactly if no member has the key, or there is no object.
pub proof fn law_member_absent(j: Option<Json>, key: Seq<char>)
    ensures
        json_ref::member(j, key) is None <==> !(j matches Some(Json::Object(ms)) && exists|k: int|
            0 <= k < ms.len() && (#[trigger] ms[k]).0 == key),
{
    if let Some(Json::Object(ms)) = j {
        lemma_lookup(ms, key);
    }
}

proof fn lemma_lookup(ms: Seq<(Seq<char>, Json)>, key: Seq<char>)
    ensures
        json::lookup(ms, key) is Some <==> exists|k: int|
            0 <= k < ms.len() && (#[trigger] ms[k]).0 == key,
    decreases ms.len(),
{
    if ms.len() > 0 {
        let tail = ms.drop_first();
        lemma_lookup(tail, key);
        if ms[0].0 != key {
            if exists|k: int| 0 <= k < ms.len() && (#[trigger] ms[k]).0 == key {
                let k = choose|k: int| 0 <= k < ms.len() && (#[trigger] ms[k]).0 == key;
                assert(tail[k - 1] == ms[k]);
            }
            if exists|k: int| 0 <= k < tail.len() && (#[trigger] tail[k]).0 == key {
                let k = choose|k: int| 0 <= k < tail.len() && (#[trigger] tail[k]).0 == key;
                assert(ms[k + 1] == tail[k]);
            }
        }
    }
}

/// Every element of an array is found at its index, whatever it is, and nothing is found at
/// any other index or in anything else.
pub proof fn law_element(j: Option<Json>, i: int)
    ensures
        match j {
            Some(Json::Array(es)) => if 0 <= i && i < es.len() {
                json_ref::element(j, i) == Some(es[i])
            } else {
                json_ref::element(j, i) is None
            },
            _ => json_ref::element(j, i) is None,
        },
{
}

/// The size of an array is the number of indices at which an element is found, and there is
/// no size of anything but an array or an object.
pub proof fn law_size(j: Option<Json>)
    ensures
        j matches Some(Json::Array(_)) ==> {
            &&& json_ref::size(j) matches Some(n)
            &&& n >= 0
            &&& forall|i: int| (#[trigger] json_ref::element(j, i)) is Some <==> 0 <= i < n
        },
        j matches Some(Json::Object(ms)) ==> json_ref::size(j) == Some(ms.len() as int),
        !(j matches Some(Json::Array(_))) && !(j matches Some(Json::Object(_))) ==> json_ref::size(
            j,
        ) is None,
{
}

/// One element or one member more makes the size one greater; an empty container has the
/// size zero.
pub proof fn law_size_grows(
    es: Seq<Json>,
    e: Json,
    ms: Seq<(Seq<char>, Json)>,
    m: (Seq<char>, Json),
)
    ensures
        json_ref::size(Some(Json::Array(seq![]))) == Some(0int),
        json_ref::size(Some(Json::Object(seq![]))) == Some(0int),
        json_ref::size(Some(Json::Array(es.push(e)))) == Some(
            json_ref::size(Some(Json::Array(es)))->0 + 1,
        ),
        json_ref::size(Some(Json::Object(ms.push(m)))) == Some(
            json_ref::size(Some(Json::Object(ms)))->0 + 1,
        ),
{
}

/// The size of an object is the number of pairs that an iteration over it yields: an
/// iterator at its start has that many to yield, and each pair leaves one fewer, until none
/// is left.
pub proof fn law_object_size<'t, 'src: 't>(c: TapeRef<'t, 'src>, it: TapeObjectIter<'t, 'src>)
    requires
        c.in_bounds(),
        c.wf(),
        it.starts(c),
    ensures
        it.wf(),
        json_ref::size(c.json()) == Some(it.places().len() as int),
        c.members().len() == it.places().len(),
        forall|r: Option<(&'t str, TapeRef<'t, 'src>)>, mid: TapeObjectIter<'t, 'src>, post|
            mid.wf() && #[trigger] mid.yields(r, post) ==> post.places().len() == (if r is Some {
                mid.places().len() - 1
            } else {
                0
            }),
{
    laws::law_member_places(it.entries(), it.position(), it.end_position());
}

/// The size of an array is the number of elements that an iteration over it yields, see
/// [`law_object_size`].
pub proof fn law_array_size<'t, 'src: 't>(c: TapeRef<'t, 'src>, it: TapeArrayIter<'t, 'src>)
    requires
        c.in_bounds(),
        c.wf(),
        it.starts(c),
    ensures
        it.wf(),
        json_ref::size(c.json()) == Some(it.places().len() as int),
        c.elements().len() == it.places().len(),
        forall|r: Option<TapeRef<'t, 'src>>, mid: TapeArrayIter<'t, 'src>, post|
            mid.wf() && #[trigger] mid.yields(r, post) ==> post.places().len() == (if r is Some {
                mid.places().len() - 1
            } else {
                0
            }),
{
    laws::law_element_places(it.entries(), it.position(), it.end_position());
}

/// The value that is read at `i`.
pub open spec fn value_of(t: Seq<Entry>, i: int) -> Json {
    match cursor::value_at(t, i) {
        Some((j, _)) => j,
        None => Json::Null,
    }
}

/// What a cursor reads at a tape entry: scalars are what the entry says, and a container has
/// a member or an element for each place, in order, with what is read there.
pub proof fn law_tape_value(t: Seq<Entry>, i: int)
    requires
        0 <= i < t.len(),
        cursor::value_at(t, i) is Some,
    ensures
        match (t[i], value_of(t, i)) {
            (Entry::Null, j) => j == Json::Null,
            (Entry::Bool(v), j) => j == Json::Bool(v),
            (Entry::Number(s), j) => j == Json::Number(s),
            (Entry::String(s), j) => j == Json::String(s),
            (Entry::EscapedString(s), j) => j == Json::String(s),
            (Entry::StartArray(end), Json::Array(es)) => {
                let places = cursor::element_places(t, i + 1, end);
                &&& places.len() == es.len()
                &&& forall|k: int|
                    0 <= k < es.len() ==> (cursor::value_at(t, #[trigger] places[k]) matches Some(
                        (v, _),
                    ) && v == es[k])
            },
            (Entry::StartObject(end), Json::Object(ms)) => {
                let places = cursor::member_places(t, i + 1, end);
                &&& places.len() == ms.len()
                &&& forall|k: int|
                    0 <= k < ms.len() ==> (#[trigger] places[k]).0 == ms[k].0 && (cursor::value_at(
                        t,
                        places[k].1,
                    ) matches Some((v, _)) && v == ms[k].1)
            },
            _ => false,
        },
{
    match t[i] {
        Entry::StartArray(end) => laws::law_element_places(t, i + 1, end),
        Entry::StartObject(end) => laws::law_member_places(t, i + 1, end),
        _ => {},
    }
}

proof fn lemma_json_elements(es: Seq<Node>)
    ensures
        json::json_elements(es).len() == es.len(),
        forall|k: int| 0 <= k < es.len() ==> #[trigger] json::json_elements(es)[k] == json::json(es[k]),
    decreases es.len(),
{
    if es.len() > 0 {
        let tail = es.drop_first();
        lemma_json_elements(tail);
        assert forall|k: int| 0 <= k < es.len() implies #[trigger] json::json_elements(es)[k]
            == json::json(es[k]) by {
            if k > 0 {
                assert(json::json_elements(tail)[k - 1] == json::json(tail[k - 1]));
            }
        }
    }
}

proof fn lemma_json_members(ms: Seq<(Seq<char>, Node)>)
    ensures
        json::json_members(ms).len() == ms.len(),
        forall|k: int|
            0 <= k < ms.len() ==> #[trigger] json::json_members(ms)[k] == (
                unescape::unescape(ms[k].0),
                json::json(ms[k].1),
            ),
    decreases ms.len(),
{
    if ms.len() > 0 {
        let tail = ms.drop_first();
        lemma_json_members(tail);
        assert forall|k: int| 0 <= k < ms.len() implies #[trigger] json::json_members(ms)[k] == (
            unescape::unescape(ms[k].0),
            json::json(ms[k].1),
        ) by {
            if k > 0 {
                assert(json::json_members(tail)[k - 1] == (
                    unescape::unescape(tail[k - 1].0),
                    json::json(tail[k - 1].1),
                ));
            }
        }
    }
}

/// The value of a document: numbers are their text, strings and keys are decoded, and
/// elements and members keep their number and their order, none left out.
pub proof fn law_document_value(n: Node)
    ensures
        match (n, json::json(n)) {
            (Node::Null, j) => j == Json::Null,
            (Node::Bool(v), j) => j == Json::Bool(v),
            (Node::Number(t), j) => j == Json::Number(t),
            (Node::String(raw), j) => j == Json::String(unescape::unescape(raw)),
            (Node::Array(es), Json::Array(js)) => {
                &&& js.len() == es.len()
                &&& forall|k: int| 0 <= k < es.len() ==> #[trigger] js[k] == json::json(es[k])
            },
            (Node::Object(ms), Json::Object(js)) => {
                &&& js.len() == ms.len()
                &&& forall|k: int|
                    0 <= k < ms.len() ==> (#[trigger] js[k]).0 == unescape::unescape(ms[k].0)
                        && js[k].1 == json::json(ms[k].1)
            },
            _ => false,
        },
{
    match n {
        Node::Array(es) => lemma_json_elements(es),
        Node::Object(ms) => lemma_json_members(ms),
        _ => {},
    }
}

/// The value that a tree represents: what its nodes hold, in order, none left out.
pub proof fn law_tree_value(v: Value)
    ensures
        match (v, v@) {
            (Value::Null, j) => j == Json::Null,
            (Value::Bool(b), j) => j == Json::Bool(b),
            (Value::Number(s), j) => j == Json::Number(s@),
            (Value::String(s), j) => j == Json::String(s@),
            (Value::Array(es), Json::Array(js)) => {
                &&& js.len() == es@.len()
                &&& forall|k: int| 0 <= k < js.len() ==> #[trigger] js[k] == es@[k]@
            },
            (Value::Object(ms), Json::Object(js)) => {
                &&& js.len() == ms@.len()
                &&& forall|k: int|
                    0 <= k < js.len() ==> (#[trigger] js[k]).0 == ms@[k].0@ && js[k].1 == ms@[k].1@
            },
            _ => false,
        },
{
    match v {
        Value::Array(es) => value::lemma_element_values(es@),
        Value::Object(ms) => value::lemma_member_values(ms@),
        _ => {},
    }
}

proof fn lemma_element_trees(es: Seq<Value>)
    ensures
        value::element_trees(es).len() == es.len(),
        forall|k: int| 0 <= k < es.len() ==> #[trigger] value::element_trees(es)[k] == value::tree(es[k]),
    decreases es.len(),
{
    if es.len() > 0 {
        let tail = es.drop_first();
        lemma_element_trees(tail);
        assert forall|k: int| 0 <= k < es.len() implies #[trigger] value::element_trees(es)[k]
            == value::tree(es[k]) by {
            if k > 0 {
                assert(value::element_trees(tail)[k - 1] == value::tree(tail[k - 1]));
            }
        }
    }
}

proof fn lemma_member_trees(ms: Seq<(Cow<str>, Value)>)
    ensures
        value::member_trees(ms).len() == ms.len(),
        forall|k: int|
            0 <= k < ms.len() ==> #[trigger] value::member_trees(ms)[k] == (
                value::cow_text(ms[k].0),
                value::tree(ms[k].1),
            ),
    decreases ms.len(),
{
    if ms.len() > 0 {
        let tail = ms.drop_first();
        lemma_member_trees(tail);
        assert forall|k: int| 0 <= k < ms.len() implies #[trigger] value::member_trees(ms)[k] == (
            value::cow_text(ms[k].0),
            value::tree(ms[k].1),
        ) by {
            if k > 0 {
                assert(value::member_trees(tail)[k - 1] == (
                    value::cow_text(tail[k - 1].0),
                    value::tree(tail[k - 1].1),
                ));
            }
        }
    }
}

proof fn lemma_node_element_trees(es: Seq<Node>)
    ensures
        value::node_element_trees(es).len() == es.len(),
        forall|k: int|
            0 <= k < es.len() ==> #[trigger] value::node_element_trees(es)[k] == value::node_tree(
                es[k],
            ),
    decreases es.len(),
{
    if es.len() > 0 {
        let tail = es.drop_first();
        lemma_node_element_trees(tail);
        assert forall|k: int| 0 <= k < es.len() implies #[trigger] value::node_element_trees(es)[k]
            == value::node_tree(es[k]) by {
            if k > 0 {
                assert(value::node_element_trees(tail)[k - 1] == value::node_tree(tail[k - 1]));
            }
        }
    }
}

proof fn lemma_node_member_trees(ms: Seq<(Seq<char>, Node)>)
    ensures
        value::node_member_trees(ms).len() == ms.len(),
        forall|k: int|
            0 <= k < ms.len() ==> #[trigger] value::node_member_trees(ms)[k] == (
                value::raw_text(ms[k].0),
                value::node_tree(ms[k].1),
            ),
    decreases ms.len(),
{
    if ms.len() > 0 {
        let tail = ms.drop_first();
        lemma_node_member_trees(tail);
        assert forall|k: int| 0 <= k < ms.len() implies #[trigger] value::node_member_trees(ms)[k]
            == (value::raw_text(ms[k].0), value::node_tree(ms[k].1)) by {
            if k > 0 {
                assert(value::node_member_trees(tail)[k - 1] == (
                    value::raw_text(tail[k - 1].0),
                    value::node_tree(tail[k - 1].1),
                ));
            }
        }
    }
}

/// In a tree that holds what the tree of `n` holds, a string of `n` is borrowed exactly if
/// its raw text has no backslash, and so is every key; elements and members are in place.
pub proof fn law_tree_borrows(v: Value, n: Node)
    requires
        value::tree(v) == value::node_tree(n),
    ensures
        match (v, n) {
            (Value::Null, Node::Null) => true,
            (Value::Bool(a), Node::Bool(b)) => a == b,
            (Value::Number(s), Node::Number(t)) => s@ == t,
            (Value::String(s), Node::String(raw)) => {
                &&& (s is Borrowed <==> !raw.contains('\\'))
                &&& s@ == unescape::unescape(raw)
            },
            (Value::Array(xs), Node::Array(es)) => {
                &&& xs@.len() == es.len()
                &&& forall|k: int|
                    0 <= k < es.len() ==> value::tree(#[trigger] xs@[k]) == value::node_tree(es[k])
            },
            (Value::Object(xs), Node::Object(ms)) => {
                &&& xs@.len() == ms.len()
                &&& forall|k: int|
                    0 <= k < ms.len() ==> {
                        &&& (#[trigger] xs@[k]).0 is Borrowed <==> !ms[k].0.contains('\\')
                        &&& xs@[k].0@ == unescape::unescape(ms[k].0)
                        &&& value::tree(xs@[k].1) == value::node_tree(ms[k].1)
                    }
            },
            _ => false,
        },
{
    match (v, n) {
        (Value::String(s), Node::String(raw)) => {
            lemma_raw_text(s, raw);
        },
        (Value::Array(xs), Node::Array(es)) => {
            lemma_element_trees(xs@);
            lemma_node_element_trees(es);
            assert forall|k: int| 0 <= k < es.len() implies value::tree(#[trigger] xs@[k])
                == value::node_tree(es[k]) by {
                assert(value::element_trees(xs@)[k] == value::node_element_trees(es)[k]);
            }
        },
        (Value::Object(xs), Node::Object(ms)) => {
            lemma_member_trees(xs@);
            lemma_node_member_trees(ms);
            assert forall|k: int| 0 <= k < ms.len() implies {
                &&& (#[trigger] xs@[k]).0 is Borrowed <==> !ms[k].0.contains('\\')
                &&& xs@[k].0@ == unescape::unescape(ms[k].0)
                &&& value::tree(xs@[k].1) == value::node_tree(ms[k].1)
            } by {
                assert(value::member_trees(xs@)[k] == value::node_member_trees(ms)[k]);
                lemma_raw_text(xs@[k].0, ms[k].0);
            }
        },
        _ => {},
    }
}

proof fn lemma_raw_text(s: Cow<str>, raw: Seq<char>)
    requires
        value::cow_text(s) == value::raw_text(raw),
    ensures
        s is Borrowed <==> !raw.contains('\\'),
        s@ == unescape::unescape(raw),
{
    if !raw.contains('\\') {
        unescape::lemma_unescape_plain(raw);
    }
}

/// The events of a scalar and of an empty container.
pub proof fn law_events_base(v: bool, t: Seq<char>)
    ensures
        grammar::events(Node::Null) == seq![Event::Null],
        grammar::events(Node::Bool(v)) == seq![Event::Bool(v)],
        grammar::events(Node::Number(t)) == seq![Event::Number(t)],
        grammar::events(Node::String(t)) == seq![
            if t.contains('\\') {
                Event::EscapedString(t)
            } else {
                Event::String(t)
            },
        ],
        grammar::events(Node::Array(seq![])) == seq![Event::StartArray, Event::EndArray],
        grammar::events(Node::Object(seq![])) == seq![Event::StartObject, Event::EndObject],
{
    assert(grammar::element_events(seq![]) =~= seq![]);
    assert(grammar::member_events(seq![]) =~= seq![]);
    assert(grammar::events(Node::Array(seq![])) =~= seq![Event::StartArray, Event::EndArray]);
    assert(grammar::events(Node::Object(seq![])) =~= seq![Event::StartObject, Event::EndObject]);
}

proof fn lemma_element_events(es: Seq<Node>, e: Node)
    ensures
        grammar::element_events(es.push(e)) == grammar::element_events(es) + grammar::events(e),
    decreases es.len(),
{
    let all = es.push(e);
    if es.len() == 0 {
        assert(grammar::element_events(all.drop_first()).len() == 0);
        assert(grammar::element_events(all) =~= grammar::element_events(es) + grammar::events(e));
    } else {
        assert(all.drop_first() =~= es.drop_first().push(e));
        lemma_element_events(es.drop_first(), e);
        assert(grammar::element_events(all) =~= grammar::element_events(es) + grammar::events(e));
    }
}

proof fn lemma_member_events(ms: Seq<(Seq<char>, Node)>, m: (Seq<char>, Node))
    ensures
        grammar::member_events(ms.push(m)) == grammar::member_events(ms) + (seq![
            grammar::key_event(m.0),
        ] + grammar::events(m.1)),
    decreases ms.len(),
{
    let all = ms.push(m);
    let last = seq![grammar::key_event(m.0)] + grammar::events(m.1);
    if ms.len() == 0 {
        assert(grammar::member_events(all.drop_first()).len() == 0);
        assert(grammar::member_events(all) =~= grammar::member_events(ms) + last);
    } else {
        assert(all.drop_first() =~= ms.drop_first().push(m));
        lemma_member_events(ms.drop_first(), m);
        assert(grammar::member_events(all) =~= grammar::member_events(ms) + last);
    }
}

/// One element more is reported by its own events, before the end of the array; one member
/// more by its key, plain or escaped, and the events of its value, before the end of the
/// object.  All other events stay.
pub proof fn law_events_grow(
    es: Seq<Node>,
    e: Node,
    ms: Seq<(Seq<char>, Node)>,
    m: (Seq<char>, Node),
)
    ensures
        grammar::events(Node::Array(es.push(e))) == grammar::events(Node::Array(es)).drop_last()
            + grammar::events(e) + seq![Event::EndArray],
        grammar::events(Node::Object(ms.push(m))) == grammar::events(Node::Object(ms)).drop_last()
            + seq![
            if m.0.contains('\\') {
                Event::EscapedKey(m.0)
            } else {
                Event::Key(m.0)
            },
        ] + grammar::events(m.1) + seq![Event::EndObject],
{
    lemma_element_events(es, e);
    lemma_member_events(ms, m);
    assert(grammar::events(Node::Array(es)).drop_last() =~= seq![Event::StartArray]
        + grammar::element_events(es));
    assert(grammar::events(Node::Object(ms)).drop_last() =~= seq![Event::StartObject]
        + grammar::member_events(ms));
    assert(grammar::events(Node::Array(es.push(e))) =~= grammar::events(Node::Array(es)).drop_last()
        + grammar::events(e) + seq![Event::EndArray]);
    assert(grammar::events(Node::Object(ms.push(m))) =~= grammar::events(
        Node::Object(ms),
    ).drop_last() + seq![grammar::key_event(m.0)] + grammar::events(m.1) + seq![Event::EndObject]);
}

/// The entries of a scalar and of an empty container, the first of which has the index
/// `base`.
pub proof fn law_tape_base(v: bool, t: Seq<char>, base: int)
    ensures
        tape::tape_of(Node::Null, base) == seq![Entry::Null],
        tape::tape_of(Node::Bool(v), base) == seq![Entry::Bool(v)],
        tape::tape_of(Node::Number(t), base) == seq![Entry::Number(t)],
        tape::tape_of(Node::String(t), base) == seq![
            if t.contains('\\') {
                Entry::EscapedString(unescape::unescape(t))
            } else {
                Entry::String(t)
            },
        ],
        tape::tape_of(Node::Array(seq![]), base) == seq![
            Entry::StartArray(base + 1),
            Entry::EndArray,
        ],
        tape::tape_of(Node::Object(seq![]), base) == seq![
            Entry::StartObject(base + 1),
            Entry::EndObject,
        ],
{
    assert(tape::tape_of_elements(seq![], base + 1) =~= seq![]);
    assert(tape::tape_of_members(seq![], base + 1) =~= seq![]);
    assert(tape::tape_of(Node::Array(seq![]), base) =~= seq![
        Entry::StartArray(base + 1),
        Entry::EndArray,
    ]);
    assert(tape::tape_of(Node::Object(seq![]), base) =~= seq![
        Entry::StartObject(base + 1),
        Entry::EndObject,
    ]);
}

proof fn lemma_tape_elements(es: Seq<Node>, e: Node, base: int)
    ensures
        tape::tape_of_elements(es.push(e), base) == tape::tape_of_elements(es, base)
            + tape::tape_of(e, base + tape::tape_of_elements(es, base).len()),
    decreases es.len(),
{
    let all = es.push(e);
    if es.len() == 0 {
        assert(tape::tape_of_elements(all.drop_first(), base + tape::tape_of(e, base).len()).len()
            == 0);
        assert(tape::tape_of_elements(all, base) =~= tape::tape_of(e, base));
    } else {
        let first = tape::tape_of(es[0], base);
        assert(all.drop_first() =~= es.drop_first().push(e));
        lemma_tape_elements(es.drop_first(), e, base + first.len());
        assert(tape::tape_of_elements(all, base) =~= tape::tape_of_elements(es, base)
            + tape::tape_of(e, base + tape::tape_of_elements(es, base).len()));
    }
}

proof fn lemma_tape_members(ms: Seq<(Seq<char>, Node)>, m: (Seq<char>, Node), base: int)
    ensures
        ({
            let before = tape::tape_of_members(ms, base);
            tape::tape_of_members(ms.push(m), base) == before + (seq![tape::key_entry(m.0)]
                + tape::tape_of(m.1, base + before.len() + 1))
        }),
    decreases ms.len(),
{
    let all = ms.push(m);
    let before = tape::tape_of_members(ms, base);
    if ms.len() == 0 {
        let v = tape::tape_of(m.1, base + 1);
        assert(tape::tape_of_members(all.drop_first(), base + 1 + v.len()).len() == 0);
        assert(tape::tape_of_members(all, base) =~= before + (seq![tape::key_entry(m.0)] + v));
    } else {
        let first = tape::tape_of(ms[0].1, base + 1);
        assert(all.drop_first() =~= ms.drop_first().push(m));
        lemma_tape_members(ms.drop_first(), m, base + 1 + first.len());
        assert(tape::tape_of_members(all, base) =~= before + (seq![tape::key_entry(m.0)]
            + tape::tape_of(m.1, base + before.len() + 1)));
    }
}

/// One element more stands behind the others, before the end of the array, and one member
/// more does so with its key, plain or escaped, in front; the start of the container tells
/// where its end has moved, and all other entries stay.
pub proof fn law_tape_grows(
    es: Seq<Node>,
    e: Node,
    ms: Seq<(Seq<char>, Node)>,
    m: (Seq<char>, Node),
    base: int,
)
    ensures
        ({
            let was = tape::tape_of(Node::Array(es), base);
            let p = base + was.len() - 1;
            let more = tape::tape_of(e, p);
            tape::tape_of(Node::Array(es.push(e)), base) == seq![Entry::StartArray(p + more.len())]
                + was.subrange(1, was.len() - 1) + more + seq![Entry::EndArray]
        }),
        ({
            let was = tape::tape_of(Node::Object(ms), base);
            let p = base + was.len() - 1;
            let key = if m.0.contains('\\') {
                Entry::EscapedKey(unescape::unescape(m.0))
            } else {
                Entry::Key(m.0)
            };
            let more = seq![key] + tape::tape_of(m.1, p + 1);
            tape::tape_of(Node::Object(ms.push(m)), base) == seq![
                Entry::StartObject(p + more.len()),
            ] + was.subrange(1, was.len() - 1) + more + seq![Entry::EndObject]
        }),
{
    lemma_tape_elements(es, e, base + 1);
    lemma_tape_members(ms, m, base + 1);
    let a = tape::tape_of(Node::Array(es), base);
    assert(a.subrange(1, a.len() - 1) =~= tape::tape_of_elements(es, base + 1));
    let o = tape::tape_of(Node::Object(ms), base);
    assert(o.subrange(1, o.len() - 1) =~= tape::tape_of_members(ms, base + 1));
    let p = base + a.len() - 1;
    let more = tape::tape_of(e, p);
    assert(tape::tape_of(Node::Array(es.push(e)), base) =~= seq![Entry::StartArray(p + more.len())]
        + a.subrange(1, a.len() - 1) + more + seq![Entry::EndArray]);
    let q = base + o.len() - 1;
    let member = seq![tape::key_entry(m.0)] + tape::tape_of(m.1, q + 1);
    assert(tape::tape_of(Node::Object(ms.push(m)), base) =~= seq![
        Entry::StartObject(q + member.len()),
    ] + o.subrange(1, o.len() - 1) + member + seq![Entry::EndObject]);
}

/// Entries and trees are equal exactly if they say the same, whoever owns the text.
pub proof fn law_equality(a: TapeEntry, b: TapeEntry, v: Value, w: Value)
    ensures
        a.eq_spec(&b) <==> a@ == b@,
        v.eq_spec(&w) <==> v@ == w@,
{
}

/// What a value at an entry is offered to a deserializer as.
pub proof fn law_offer<'t, 'src: 't>(c: TapeRef<'t, 'src>, visit: Visit<'t, 'src>)
    requires
        visit.offers(c),
    ensures
        match c.here() {
            Entry::Null => visit is Unit,
            Entry::Bool(v) => visit matches Visit::Bool(x) && x == v,
            Entry::Number(_) => visit is U64 || visit is I64 || visit is Number,
            Entry::String(t) => visit matches Visit::BorrowedStr(s) && s@ == t,
            Entry::EscapedString(t) => visit matches Visit::Str(s) && s@ == t,
            Entry::StartArray(_) => visit matches Visit::Array(a) && a.iter().starts(c),
            Entry::StartObject(_) => visit matches Visit::Object(a) && a.iter().starts(c)
                && a.pending() is None,
            _ => false,
        },
{
}

/// A writer takes events one after the other: none leaves it as it is, and one more is one
/// step more.
pub proof fn law_reaches<'src, W: Sax<'src>>(w0: W, es: Seq<Event>, e: Event, w: W)
    ensures
        sax::reaches(w0, seq![], w) <==> w == w0,
        sax::reaches(w0, es.push(e), w) <==> exists|m: W|
            sax::reaches(w0, es, m) && #[trigger] W::steps(m, e, w),
{
    assert(es.push(e).drop_last() =~= es);
    assert(es.push(e).last() == e);
}

/// An iteration over an array yields every element, in order, as a cursor at its place: the
/// next one while there is one, and nothing only behind the last.
pub proof fn law_array_steps<'t, 'src: 't>(
    it: TapeArrayIter<'t, 'src>,
    r: Option<TapeRef<'t, 'src>>,
    post: TapeArrayIter<'t, 'src>,
)
    requires
        it.wf(),
        it.yields(r, post),
    ensures
        match r {
            Some(v) => {
                &&& it.places().len() > 0
                &&& v.tape() == it.tape()
                &&& v.position() == it.places()[0]
                &&& v.json() == Some(value_of(it.entries(), it.places()[0]))
                &&& post.tape() == it.tape()
                &&& post.places() == it.places().drop_first()
            },
            None => it.places().len() == 0,
        },
{
}

/// An iteration over an object yields every pair, in order, the value as a cursor at its
/// place: the next one while there is one, and nothing only behind the last.
pub proof fn law_object_steps<'t, 'src: 't>(
    it: TapeObjectIter<'t, 'src>,
    r: Option<(&'t str, TapeRef<'t, 'src>)>,
    post: TapeObjectIter<'t, 'src>,
)
    requires
        it.wf(),
        it.yields(r, post),
    ensures
        match r {
            Some((key, v)) => {
                &&& it.places().len() > 0
                &&& v.tape() == it.tape()
                &&& it.places()[0] == (key@, v.position())
                &&& v.json() == Some(value_of(it.entries(), v.position()))
                &&& post.tape() == it.tape()
                &&& post.places() == it.places().drop_first()
            },
            None => it.places().len() == 0,
        },
{
}

/// A cursor reads what stands at its place, and a tape what stands at its start, if that is
/// all that it holds.
pub proof fn law_cursor_value<'t, 'src: 't>(c: TapeRef<'t, 'src>, t: Tape<'src>)
    ensures
        c.wf() <==> cursor::value_at(c.entries(), c.position()) is Some,
        c.wf() ==> c.json() == Some(value_of(c.entries(), c.position())),
        t.wf() <==> (cursor::value_at(t@, 0) matches Some((_, end)) && end == t@.len()),
        t.wf() ==> t.json() == value_of(t@, 0),
        t@.len() == t.entries@.len(),
        forall|i: int| 0 <= i < t@.len() ==> #[trigger] t@[i] == t.entries@[i]@,
{
}

/// What a lookup in a tree and an index into one lead to is the member or the element itself.
pub proof fn law_tree_places<'a>(v: &'a Value<'a>, key: Seq<char>, i: int, x: &'a Value<'a>)
    ensures
        v.is_member(key, x) ==> (*v matches Value::Object(ms) && exists|k: int|
            {
                &&& 0 <= k < ms@.len()
                &&& (#[trigger] ms@[k]).0@ == key
                &&& ms@[k].1 == *x
                &&& forall|j: int| 0 <= j < k ==> (#[trigger] ms@[j]).0@ != key
            }),
        v.is_element(i, x) ==> (*v matches Value::Array(es) && 0 <= i < es@.len() && es@[i] == *x),
{
}

/// A chain of lookups answers as on the inner value, and nothing on nothing.
pub proof fn law_chain<'a, J: JsonRef<'a>>(j: J, key: Seq<char>, i: int, x: J::Item)
    ensures
        Some(j).json() == j.json(),
        Some(j).wf() == j.wf(),
        Some(j).is_member(key, x) == j.is_member(key, x),
        Some(j).is_element(i, x) == j.is_element(i, x),
        None::<J>.json() is None,
        None::<J>.wf(),
        !None::<J>.is_member(key, x),
        !None::<J>.is_element(i, x),
{
}

/// The kind of an entry.
pub proof fn law_entry_kind(e: Entry)
    ensures
        e.kind() is Null <==> e is Null,
        e.kind() is Bool <==> e is Bool,
        e.kind() is Number <==> e is Number,
        e.kind() is String <==> e is String,
        e.kind() is EscapedString <==> e is EscapedString,
        e.kind() is Key <==> e is Key,
        e.kind() is EscapedKey <==> e is EscapedKey,
        e.kind() is StartObject <==> e is StartObject,
        e.kind() is EndObject <==> e is EndObject,
        e.kind() is StartArray <==> e is StartArray,
        e.kind() is EndArray <==> e is EndArray,
{
}

/// What a parse may return: nothing for a text that is no document, and for a document what
/// the writer returns when it has taken the events of the document.
pub proof fn law_may_return<'src, W: Sax<'src>>(src: Seq<char>, w0: W, out: Option<W::Output>)
    ensures
        grammar::document(encode_utf8(src)) is None ==> (parse::may_return(src, w0, out) <==> out
            is None),
        grammar::document(encode_utf8(src)) matches Some(n) ==> (parse::may_return(src, w0, out)
            <==> exists|w: W|
            sax::reaches(w0, grammar::events(n), w) && #[trigger] w.finishes(out)),
{
}

/// What a tape writer holds after an event that ends no container: one entry more, at the
/// end.
pub proof fn law_draft_grows(d: Draft, e: Event)
    requires
        !(e is EndObject),
        !(e is EndArray),
    ensures
        d.after(e).entries == d.entries.push(
            match e {
                Event::Null => Entry::Null,
                Event::Bool(v) => Entry::Bool(v),
                Event::Number(t) => Entry::Number(t),
                Event::String(t) => Entry::String(t),
                Event::EscapedString(t) => Entry::EscapedString(unescape::unescape(t)),
                Event::Key(t) => Entry::Key(t),
                Event::EscapedKey(t) => Entry::EscapedKey(unescape::unescape(t)),
                Event::StartObject => Entry::StartObject(0),
                _ => Entry::StartArray(0),
            },
        ),
        e is StartObject || e is StartArray ==> d.after(e).open == d.open.push(
            d.entries.len() as int,
        ),
        !(e is StartObject || e is StartArray) ==> d.after(e).open == d.open,
        d.after(e).has_escapes == (d.has_escapes || e is EscapedString || e is EscapedKey),
{
}

/// What a tape writer holds after the end of a container: one entry more, and the start of
/// the innermost open container tells where it stands.
pub proof fn law_draft_ends(d: Draft, object: bool)
    requires
        forall|k: int|
            0 <= k < d.open.len() ==> 0 <= #[trigger] d.open[k] < d.entries.len(),
        d.entries.len() < 0x1000_0000_0000_0000,
    ensures
        ({
            let r = d.after(
                if object {
                    Event::EndObject
                } else {
                    Event::EndArray
                },
            );
            let e = if object {
                Entry::EndObject
            } else {
                Entry::EndArray
            };
            &&& r.has_escapes == d.has_escapes
            &&& r.entries.len() == d.entries.len() + 1
            &&& r.entries.last() == e
            &&& d.open.len() == 0 ==> r.open == d.open && r.entries == d.entries.push(e)
            &&& d.open.len() > 0 ==> {
                let s = d.open.last();
                &&& r.open == d.open.drop_last()
                &&& d.entries[s] is StartObject ==> r.entries[s] == Entry::StartObject(
                    d.entries.len() as int,
                )
                &&& d.entries[s] is StartArray ==> r.entries[s] == Entry::StartArray(
                    d.entries.len() as int,
                )
                &&& forall|k: int|
                    0 <= k < d.entries.len() && k != s ==> #[trigger] r.entries[k] == d.entries[k]
            }
        }),
{
}

/// What a tree writer holds after an event: a scalar or an ended container goes into the
/// innermost open container, behind what that holds, or is the result; a key waits for its
/// value.
pub proof fn law_sketch(d: Sketch, t: Seq<char>, v: bool)
    ensures
        d.after(Event::Null) == placed(d, Tree::Null),
        d.after(Event::Bool(v)) == placed(d, Tree::Bool(v)),
        d.after(Event::Number(t)) == placed(d, Tree::Number(t)),
        d.after(Event::String(t)) == placed(d, Tree::String(Text { text: t, owned: false })),
        d.after(Event::EscapedString(t)) == placed(
            d,
            Tree::String(Text { text: unescape::unescape(t), owned: true }),
        ),
        d.after(Event::StartArray).result == d.result,
        d.after(Event::StartArray).open == d.open.push(OpenTree::Array(seq![])),
        d.after(Event::StartObject).result == d.result,
        d.after(Event::StartObject).open.drop_last() == d.open,
        d.after(Event::StartObject).open.last() matches OpenTree::Object(_, ms) && ms.len() == 0,
        d.open.len() > 0 ==> {
            let rest = Sketch { open: d.open.drop_last(), ..d };
            match d.open.last() {
                OpenTree::Array(es) => d.after(Event::EndArray) == placed(rest, Tree::Array(es)),
                OpenTree::Object(_, ms) => {
                    &&& d.after(Event::EndObject) == placed(rest, Tree::Object(ms))
                    &&& d.after(Event::Key(t)).open == d.open.drop_last().push(
                        OpenTree::Object(Text { text: t, owned: false }, ms),
                    )
                    &&& d.after(Event::EscapedKey(t)).open == d.open.drop_last().push(
                        OpenTree::Object(Text { text: unescape::unescape(t), owned: true }, ms),
                    )
                    &&& d.after(Event::Key(t)).result == d.result
                    &&& d.after(Event::EscapedKey(t)).result == d.result
                },
            }
        },
{
    assert(d.after(Event::StartObject).open.drop_last() =~= d.open);
}

/// `d` with the complete value `v` more.
pub open spec fn placed(d: Sketch, v: Tree) -> Sketch {
    if d.open.len() == 0 {
        Sketch { open: d.open, result: Some(v) }
    } else {
        let top = match d.open.last() {
            OpenTree::Array(es) => OpenTree::Array(es.push(v)),
            OpenTree::Object(key, ms) => OpenTree::Object(
                Text { text: seq![], owned: false },
                ms.push((key, v)),
            ),
        };
        Sketch { open: d.open.drop_last().push(top), result: d.result }
    }
}

}
