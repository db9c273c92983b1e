//! Walking over a tape.
use vstd::prelude::*;

use crate::json;
use crate::json::Json;
use crate::json_ref::JsonRef;
use crate::tape;
use crate::tape::{Entry, Tape, TapeEntry, TapeEntryKind};
use crate::text::same_text;

verus! {

/// The value whose entries start at `i`, and the index behind them.
pub open spec fn value_at(t: Seq<Entry>, i: int) -> Option<(Json, int)>
    decreases t.len() - i, 0nat,
{
    if !(0 <= i < t.len()) {
        None
    } else {
        match t[i] {
            Entry::Null => Some((Json::Null, i + 1)),
            Entry::Bool(v) => Some((Json::Bool(v), i + 1)),
            Entry::Number(s) => Some((Json::Number(s), i + 1)),
            Entry::String(s) | Entry::EscapedString(s) => Some((Json::String(s), i + 1)),
            Entry::StartObject(end) => if i < end < t.len() && t[end] is EndObject {
                match members_at(t, i + 1, end) {
                    Some(ms) => Some((Json::Object(ms), end + 1)),
                    None => None,
                }
            } else {
                None
            },
            Entry::StartArray(end) => if i < end < t.len() && t[end] is EndArray {
                match elements_at(t, i + 1, end) {
                    Some(es) => Some((Json::Array(es), end + 1)),
                    None => None,
                }
            } else {
                None
            },
            _ => None,
        }
    }
}

/// The text of a key.
pub open spec fn key_text(e: Entry) -> Option<Seq<char>> {
    match e {
        Entry::Key(s) | Entry::EscapedKey(s) => Some(s),
        _ => None,
    }
}

/// The members whose entries fill the range from `i` to `end`.
pub open spec fn members_at(t: Seq<Entry>, i: int, end: int) -> Option<Seq<(Seq<char>, Json)>>
    decreases t.len() - i, 1nat,
{
    if i == end {
        Some(seq![])
    } else if !(0 <= i < end <= t.len()) {
        None
    } else {
        match (key_text(t[i]), value_at(t, i + 1)) {
            (Some(key), Some((v, j))) => if i < j <= end {
                match members_at(t, j, end) {
                    Some(ms) => Some(seq![(key, v)] + ms),
                    None => None,
                }
            } else {
                None
            },
            _ => None,
        }
    }
}

/// The elements whose entries fill the range from `i` to `end`.
pub open spec fn elements_at(t: Seq<Entry>, i: int, end: int) -> Option<Seq<Json>>
    decreases t.len() - i, 1nat,
{
    if i == end {
        Some(seq![])
    } else if !(0 <= i < end <= t.len()) {
        None
    } else {
        match value_at(t, i) {
            Some((v, j)) => if i < j <= end {
                match elements_at(t, j, end) {
                    Some(es) => Some(seq![v] + es),
                    None => None,
                }
            } else {
                None
            },
            None => None,
        }
    }
}

/// The keys of the members whose entries fill the range from `i` to `end`, and the indices
/// where their values start.
pub open spec fn member_places(t: Seq<Entry>, i: int, end: int) -> Seq<(Seq<char>, int)>
    decreases end - i,
{
    if !(0 <= i < end <= t.len()) {
        seq![]
    } else {
        match (key_text(t[i]), value_at(t, i + 1)) {
            (Some(key), Some((_, j))) => if i < j <= end {
                seq![(key, i + 1)] + member_places(t, j, end)
            } else {
                seq![]
            },
            _ => seq![],
        }
    }
}

/// The indices where the elements start whose entries fill the range from `i` to `end`.
pub open spec fn element_places(t: Seq<Entry>, i: int, end: int) -> Seq<int>
    decreases end - i,
{
    if !(0 <= i < end <= t.len()) {
        seq![]
    } else {
        match value_at(t, i) {
            Some((_, j)) => if i < j <= end {
                seq![i] + element_places(t, j, end)
            } else {
                seq![]
            },
            None => seq![],
        }
    }
}

/// The place that belongs to the first of the keys that is `key`.
pub open spec fn find_place(places: Seq<(Seq<char>, int)>, key: Seq<char>) -> Option<int>
    decreases places.len(),
{
    if places.len() == 0 {
        None
    } else if places[0].0 == key {
        Some(places[0].1)
    } else {
        find_place(places.drop_first(), key)
    }
}

impl<'src> Tape<'src> {
    /// The tape holds the entries of one value and nothing else.
    pub open spec fn wf(&self) -> bool {
        value_at(self@, 0) matches Some((_, end)) && end == self@.len()
    }

    /// The value that the tape holds.
    pub open spec fn json(&self) -> Json {
        match value_at(self@, 0) {
            Some((v, _)) => v,
            None => Json::Null,
        }
    }

    /// Returns a [`TapeRef`] cursor at the root (entry 0), or `None` if the tape is empty.
    pub fn root<'t>(&'t self) -> (r: Option<TapeRef<'t, 'src>>)
        ensures
            match r {
                Some(c) => {
                    &&& c.in_bounds()
                    &&& c.tape()@ == self.entries@
                    &&& c.entries() == self@
                    &&& c.position() == 0
                },
                None => self@.len() == 0,
            },
            self.wf() ==> (r matches Some(c) && c.wf() && c.json() == Some(self.json())),
    {
        if self.entries.is_empty() {
            None
        } else {
            Some(TapeRef { tape: self.entries.as_slice(), pos: 0 })
        }
    }
}

/// A lightweight cursor into a [`Tape`], pointing at a single entry by index.
///
/// `'t` is the lifetime of the borrow of the tape; `'src` is the lifetime of the source.
/// Created by [`Tape::root`].
#[derive(Clone, Copy)]
pub struct TapeRef<'t, 'src: 't> {
    tape: &'t [TapeEntry<'src>],
    pos: usize,
}

impl<'t, 'src: 't> TapeRef<'t, 'src> {
    /// The tape that the cursor walks over.
    pub closed spec fn tape(self) -> &'t [TapeEntry<'src>] {
        self.tape
    }

    /// What the tape says.
    pub open spec fn entries(self) -> Seq<Entry> {
        tape::views(self.tape()@)
    }

    /// The index of the entry that the cursor points at.
    pub closed spec fn position(self) -> int {
        self.pos as int
    }

    /// The cursor points at an entry.
    pub open spec fn in_bounds(self) -> bool {
        0 <= self.position() < self.entries().len()
    }

    /// The entry that the cursor points at.
    pub open spec fn here(self) -> Entry {
        self.entries()[self.position()]
    }

    /// The cursor points at the entry with the index `p` of the tape that `other` walks over.
    pub open spec fn stands_at(self, other: Self, p: int) -> bool {
        self.tape() == other.tape() && self.position() == p
    }

    /// The places of the members of the object that the cursor points at.
    pub open spec fn members(self) -> Seq<(Seq<char>, int)> {
        match self.here() {
            Entry::StartObject(end) => member_places(self.entries(), self.position() + 1, end),
            _ => seq![],
        }
    }

    /// The places of the elements of the array that the cursor points at.
    pub open spec fn elements(self) -> Seq<int> {
        match self.here() {
            Entry::StartArray(end) => element_places(self.entries(), self.position() + 1, end),
            _ => seq![],
        }
    }
}

/// Two cursors at the same place of the same tape are the same.
pub proof fn lemma_same_cursor<'t, 'src: 't>(a: TapeRef<'t, 'src>, b: TapeRef<'t, 'src>)
    requires
        a.stands_at(b, b.position()),
    ensures
        a == b,
{
}

/// Advances past the value at `pos`, returning the index of the next sibling.
///
/// The start of an object or an array jumps over the entire subtree.
fn tape_skip(entries: &[TapeEntry<'_>], pos: usize) -> (r: usize)
    requires
        value_at(tape::views(entries@), pos as int) is Some,
    ensures
        value_at(tape::views(entries@), pos as int) matches Some((_, end)) && r == end,
{
    let ghost t = tape::views(entries@);
    assert(entries@.len() == entries.len());
    let e = &entries[pos];
    assert(t[pos as int] == e@);
    if let Some(end) = e.as_start_object() {
        end + 1
    } else if let Some(end) = e.as_start_array() {
        end + 1
    } else {
        pos + 1
    }
}

/// An iterator over the key-value pairs of a JSON object in a [`Tape`], in document
/// order.  Created by [`TapeRef::object_iter`].
pub struct TapeObjectIter<'t, 'src: 't> {
    tape: &'t [TapeEntry<'src>],
    pos: usize,
    end: usize,
}

impl<'t, 'src: 't> TapeObjectIter<'t, 'src> {
    /// The tape that the iterator walks over.
    pub closed spec fn tape(self) -> &'t [TapeEntry<'src>] {
        self.tape
    }

    /// What the tape says.
    pub open spec fn entries(self) -> Seq<Entry> {
        tape::views(self.tape()@)
    }

    /// The index of the next key, or of the end of the object.
    pub closed spec fn position(self) -> int {
        self.pos as int
    }

    /// The index of the end of the object.
    pub closed spec fn end_position(self) -> int {
        self.end as int
    }

    /// There are pairs all the way to the end of the object.
    pub open spec fn wf(self) -> bool {
        members_at(self.entries(), self.position(), self.end_position()) is Some
    }

    /// The pairs that are still to come.
    pub open spec fn remaining(self) -> Seq<(Seq<char>, Json)> {
        members_at(self.entries(), self.position(), self.end_position())->0
    }

    /// The keys that are still to come, and where their values stand.
    pub open spec fn places(self) -> Seq<(Seq<char>, int)> {
        member_places(self.entries(), self.position(), self.end_position())
    }

    /// The iterator stands before the first pair of the object at `c`.
    pub open spec fn starts(self, c: TapeRef<'t, 'src>) -> bool {
        &&& self.tape() == c.tape()
        &&& self.position() == c.position() + 1
        &&& c.here() == Entry::StartObject(self.end_position())
    }

    /// The iterator yields `r` and stands as `post` says then: the key and the value that
    /// come next, the value as a cursor at its entry, or nothing behind the last pair.
    pub open spec fn yields(self, r: Option<(&'t str, TapeRef<'t, 'src>)>, post: Self) -> bool {
        match r {
            Some((key, value)) => {
                &&& self.remaining().len() > 0
                &&& self.places().len() > 0
                &&& value.wf()
                &&& value.json() is Some
                &&& (key@, value.json()->0) == self.remaining()[0]
                &&& key_text(self.entries()[self.position()]) == Some(key@)
                &&& value.tape() == self.tape()
                &&& value.position() == self.position() + 1
                &&& (key@, value.position()) == self.places()[0]
                &&& post.wf()
                &&& post.tape() == self.tape()
                &&& post.end_position() == self.end_position()
                &&& value_at(self.entries(), value.position()) matches Some((_, j))
                &&& post.position() == j
                &&& post.remaining() == self.remaining().drop_first()
                &&& post.places() == self.places().drop_first()
            },
            None => {
                &&& self.remaining().len() == 0
                &&& self.places().len() == 0
                &&& post == self
            },
        }
    }

    /// The next key and value.
    pub fn next(&mut self) -> (r: Option<(&'t str, TapeRef<'t, 'src>)>)
        requires
            old(self).wf(),
        ensures
            final(self).wf(),
            old(self).yields(r, *final(self)),
    {
        let ghost t = tape::views(self.tape@);
        if self.pos >= self.end {
            return None;
        }
        assert(self.tape@.len() == self.tape.len());
        let e = &self.tape[self.pos];
        assert(t[self.pos as int] == e@);
        match e.as_key() {
            None => None,
            Some(key) => {
                let value_pos: usize = self.pos + 1;
                self.pos = tape_skip(self.tape, value_pos);
                assert(self.remaining() =~= old(self).remaining().drop_first());
                assert(self.places() =~= old(self).places().drop_first());
                Some((key, TapeRef { tape: self.tape, pos: value_pos }))
            },
        }
    }
}

/// An iterator over the elements of a JSON array in a [`Tape`], in document order.
/// Created by [`TapeRef::array_iter`].
pub struct TapeArrayIter<'t, 'src: 't> {
    tape: &'t [TapeEntry<'src>],
    pos: usize,
    end: usize,
}

impl<'t, 'src: 't> TapeArrayIter<'t, 'src> {
    /// The tape that the iterator walks over.
    pub closed spec fn tape(self) -> &'t [TapeEntry<'src>] {
        self.tape
    }

    /// What the tape says.
    pub open spec fn entries(self) -> Seq<Entry> {
        tape::views(self.tape()@)
    }

    /// The index where the next element starts, or of the end of the array.
    pub closed spec fn position(self) -> int {
        self.pos as int
    }

    /// The index of the end of the array.
    pub closed spec fn end_position(self) -> int {
        self.end as int
    }

    /// There are elements all the way to the end of the array.
    pub open spec fn wf(self) -> bool {
        elements_at(self.entries(), self.position(), self.end_position()) is Some
    }

    /// The elements that are still to come.
    pub open spec fn remaining(self) -> Seq<Json> {
        elements_at(self.entries(), self.position(), self.end_position())->0
    }

    /// Where the elements that are still to come stand.
    pub open spec fn places(self) -> Seq<int> {
        element_places(self.entries(), self.position(), self.end_position())
    }

    /// The iterator stands before the first element of the array at `c`.
    pub open spec fn starts(self, c: TapeRef<'t, 'src>) -> bool {
        &&& self.tape() == c.tape()
        &&& self.position() == c.position() + 1
        &&& c.here() == Entry::StartArray(self.end_position())
    }

    /// The iterator yields `r` and stands as `post` says then: the element that comes next,
    /// as a cursor at its entry, or nothing behind the last one.
    pub open spec fn yields(self, r: Option<TapeRef<'t, 'src>>, post: Self) -> bool {
        match r {
            Some(value) => {
                &&& self.remaining().len() > 0
                &&& self.places().len() > 0
                &&& value.wf()
                &&& value.json() == Some(self.remaining()[0])
                &&& value.tape() == self.tape()
                &&& value.position() == self.position()
                &&& value.position() == self.places()[0]
                &&& post.wf()
                &&& post.tape() == self.tape()
                &&& post.end_position() == self.end_position()
                &&& value_at(self.entries(), value.position()) matches Some((_, j))
                &&& post.position() == j
                &&& post.remaining() == self.remaining().drop_first()
                &&& post.places() == self.places().drop_first()
            },
            None => {
                &&& self.remaining().len() == 0
                &&& self.places().len() == 0
                &&& post == self
            },
        }
    }

    /// The next element.
    pub fn next(&mut self) -> (r: Option<TapeRef<'t, 'src>>)
        requires
            old(self).wf(),
        ensures
            final(self).wf(),
            old(self).yields(r, *final(self)),
    {
        if self.pos >= self.end {
            return None;
        }
        let item = TapeRef { tape: self.tape, pos: self.pos };
        self.pos = tape_skip(self.tape, self.pos);
        assert(self.remaining() =~= old(self).remaining().drop_first());
        assert(self.places() =~= old(self).places().drop_first());
        Some(item)
    }
}

impl<'t, 'src: 't> TapeRef<'t, 'src> {
    /// The entry that the cursor points at.
    pub fn entry(self) -> (r: &'t TapeEntry<'src>)
        requires
            self.in_bounds(),
        ensures
            *r == self.tape()@[self.position()],
            r@ == self.here(),
    {
        &self.tape[self.pos]
    }

    /// Returns an iterator over the key-value pairs if this value is a JSON object, or
    /// `None` otherwise.
    pub fn object_iter(self) -> (r: Option<TapeObjectIter<'t, 'src>>)
        requires
            self.in_bounds(),
        ensures
            r is Some == self.here() is StartObject,
            r matches Some(it) ==> it.starts(self) && it.places() == self.members(),
            self.wf() ==> match self.json() {
                Some(Json::Object(ms)) => r matches Some(it) && it.wf() && it.remaining() == ms,
                _ => r is None,
            },
    {
        assert(self.tape@.len() == self.tape.len());
        match self.entry().as_start_object() {
            Some(end) => Some(TapeObjectIter { tape: self.tape, pos: self.pos + 1, end }),
            None => None,
        }
    }

    /// Returns an iterator over the elements if this value is a JSON array, or `None`
    /// otherwise.
    pub fn array_iter(self) -> (r: Option<TapeArrayIter<'t, 'src>>)
        requires
            self.in_bounds(),
        ensures
            r is Some == self.here() is StartArray,
            r matches Some(it) ==> it.starts(self) && it.places() == self.elements(),
            self.wf() ==> match self.json() {
                Some(Json::Array(es)) => r matches Some(it) && it.wf() && it.remaining() == es,
                _ => r is None,
            },
    {
        assert(self.tape@.len() == self.tape.len());
        match self.entry().as_start_array() {
            Some(end) => Some(TapeArrayIter { tape: self.tape, pos: self.pos + 1, end }),
            None => None,
        }
    }
}

/// A range has room for its elements.
proof fn lemma_elements_len(t: Seq<Entry>, i: int, end: int)
    requires
        elements_at(t, i, end) is Some,
    ensures
        elements_at(t, i, end)->0.len() <= end - i,
    decreases end - i,
{
    if i != end {
        if let Some((_, j)) = value_at(t, i) {
            lemma_elements_len(t, j, end);
        }
    }
}

/// A range has room for its members.
proof fn lemma_members_len(t: Seq<Entry>, i: int, end: int)
    requires
        members_at(t, i, end) is Some,
    ensures
        members_at(t, i, end)->0.len() <= end - i,
    decreases end - i,
{
    if i != end {
        if let Some((_, j)) = value_at(t, i + 1) {
            lemma_members_len(t, j, end);
        }
    }
}

/// What a lookup does not find in the first member it looks for in the rest.
proof fn lemma_lookup_skip(ms: Seq<(Seq<char>, Json)>, key: Seq<char>)
    requires
        ms.len() > 0,
        ms[0].0 != key,
    ensures
        json::lookup(ms, key) == json::lookup(ms.drop_first(), key),
{
}

impl<'t, 'src: 't> JsonRef<'t> for TapeRef<'t, 'src> {
    type Item = Self;

    open spec fn wf(self) -> bool {
        value_at(self.entries(), self.position()) is Some
    }

    open spec fn json(self) -> Option<Json> {
        match value_at(self.entries(), self.position()) {
            Some((v, _)) => Some(v),
            None => None,
        }
    }

    open spec fn item_wf(item: Self) -> bool {
        item.wf()
    }

    open spec fn item_json(item: Self) -> Option<Json> {
        item.json()
    }

    open spec fn is_member(self, key: Seq<char>, item: Self) -> bool {
        &&& find_place(self.members(), key) matches Some(p)
        &&& item.stands_at(self, p)
    }

    open spec fn is_element(self, i: int, item: Self) -> bool {
        &&& 0 <= i < self.elements().len()
        &&& item.stands_at(self, self.elements()[i])
    }

    fn is_array(self) -> bool {
        self.entry().kind() == TapeEntryKind::StartArray
    }

    fn is_object(self) -> bool {
        self.entry().kind() == TapeEntryKind::StartObject
    }

    fn as_null(self) -> Option<()> {
        if self.entry().kind() == TapeEntryKind::Null {
            Some(())
        } else {
            None
        }
    }

    fn as_bool(self) -> Option<bool> {
        self.entry().as_bool()
    }

    fn as_number_str(self) -> Option<&'t str> {
        self.entry().as_number()
    }

    fn as_str(self) -> Option<&'t str> {
        self.entry().as_string()
    }

    fn get(self, key: &str) -> Option<Self> {
        match self.object_iter() {
            None => None,
            Some(iter) => {
                let mut it = iter;
                let ghost all = it.remaining();
                loop
                    invariant
                        it.wf(),
                        self.json() == Some(Json::Object(all)),
                        json::lookup(all, key@) == json::lookup(it.remaining(), key@),
                        it.tape() == self.tape(),
                        find_place(self.members(), key@) == find_place(it.places(), key@),
                    decreases it.remaining().len(),
                {
                    let ghost before = it.remaining();
                    match it.next() {
                        None => {
                            return None;
                        },
                        Some((k, value)) => {
                            if same_text(k, key) {
                                return Some(value);
                            }
                            proof {
                                lemma_lookup_skip(before, key@);
                            }
                        },
                    }
                }
            },
        }
    }

    fn index_at(self, i: usize) -> Option<Self> {
        match self.array_iter() {
            None => None,
            Some(iter) => {
                let mut it = iter;
                let ghost all = it.remaining();
                let mut count: usize = 0;
                loop
                    invariant
                        it.wf(),
                        self.json() == Some(Json::Array(all)),
                        count <= i,
                        count <= all.len(),
                        it.remaining() =~= all.skip(count as int),
                        it.tape() == self.tape(),
                        count <= self.elements().len(),
                        it.places() =~= self.elements().skip(count as int),
                    decreases it.remaining().len(),
                {
                    match it.next() {
                        None => {
                            return None;
                        },
                        Some(value) => {
                            if count == i {
                                return Some(value);
                            }
                            count += 1;
                        },
                    }
                }
            },
        }
    }

    fn len(self) -> Option<usize> {
        if let Some(iter) = self.array_iter() {
            let mut it = iter;
            let ghost all = it.remaining();
            let mut count: usize = 0;
            proof {
                lemma_elements_len(tape::views(it.tape@), it.pos as int, it.end as int);
            }
            loop
                invariant
                    it.wf(),
                    self.json() == Some(Json::Array(all)),
                    all.len() <= usize::MAX,
                    count + it.remaining().len() == all.len(),
                decreases it.remaining().len(),
            {
                match it.next() {
                    None => {
                        return Some(count);
                    },
                    Some(_) => {
                        count += 1;
                    },
                }
            }
        }
        if let Some(iter) = self.object_iter() {
            let mut it = iter;
            let ghost all = it.remaining();
            let mut count: usize = 0;
            proof {
                lemma_members_len(tape::views(it.tape@), it.pos as int, it.end as int);
            }
            loop
                invariant
                    it.wf(),
                    self.json() == Some(Json::Object(all)),
                    all.len() <= usize::MAX,
                    count + it.remaining().len() == all.len(),
                decreases it.remaining().len(),
            {
                match it.next() {
                    None => {
                        return Some(count);
                    },
                    Some(_) => {
                        count += 1;
                    },
                }
            }
        }
        None
    }
}

}
