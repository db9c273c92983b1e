//! The flat sequence of tokens that a document is parsed into.
use vstd::prelude::*;
use vstd::string::*;

use crate::grammar::{Event, Node};
use crate::sax::Sax;
use crate::text::same_text;
use crate::unescape;
use crate::unescape::unescape_str;

verus! {

/// The kind of a [`TapeEntry`], stored in the top four bits of its tag word in this
/// order, from zero.
#[derive(Debug, Clone, Copy, PartialEq, Eq, Structural)]
pub enum TapeEntryKind {
    Null,
    Bool,
    Number,
    String,
    EscapedString,
    Key,
    EscapedKey,
    StartObject,
    EndObject,
    StartArray,
    EndArray,
}

/// Where the kind starts in the tag word.
const KIND_SHIFT: u64 = 60;

/// The bits of the tag word below the kind.
const PAYLOAD_MASK: u64 = 0x0fff_ffff_ffff_ffff;

/// The number of values that the payload can take.
pub const PAYLOAD_RANGE: u64 = 0x1000_0000_0000_0000;

/// What a tape entry says.  Text is decoded.
#[verifier::ext_equal]
pub enum Entry {
    Null,
    Bool(bool),
    Number(Seq<char>),
    String(Seq<char>),
    EscapedString(Seq<char>),
    Key(Seq<char>),
    EscapedKey(Seq<char>),
    /// With the index of the matching `EndObject`.
    StartObject(int),
    EndObject,
    /// With the index of the matching `EndArray`.
    StartArray(int),
    EndArray,
}

impl Entry {
    /// The kind of the entry.
    pub open spec fn kind(self) -> TapeEntryKind {
        match self {
            Entry::Null => TapeEntryKind::Null,
            Entry::Bool(_) => TapeEntryKind::Bool,
            Entry::Number(_) => TapeEntryKind::Number,
            Entry::String(_) => TapeEntryKind::String,
            Entry::EscapedString(_) => TapeEntryKind::EscapedString,
            Entry::Key(_) => TapeEntryKind::Key,
            Entry::EscapedKey(_) => TapeEntryKind::EscapedKey,
            Entry::StartObject(_) => TapeEntryKind::StartObject,
            Entry::EndObject => TapeEntryKind::EndObject,
            Entry::StartArray(_) => TapeEntryKind::StartArray,
            Entry::EndArray => TapeEntryKind::EndArray,
        }
    }

    /// The entry owns its text instead of borrowing it from the source.
    pub open spec fn is_escaped(self) -> bool {
        self is EscapedString || self is EscapedKey
    }
}

/// The text of an entry.
enum EntryText<'a> {
    Absent,
    Borrowed(&'a str),
    Owned(Box<str>),
}

impl<'a> EntryText<'a> {
    spec fn view(self) -> Seq<char> {
        match self {
            EntryText::Absent => seq![],
            EntryText::Borrowed(s) => s@,
            EntryText::Owned(s) => s@,
        }
    }

    /// The payload of an entry with the text: its length in bytes, or zero without text.
    spec fn length(self) -> int {
        match self {
            EntryText::Absent => 0,
            EntryText::Borrowed(s) => text_payload(s@),
            EntryText::Owned(s) => text_payload(s@),
        }
    }
}

/// A single token in a [`Tape`].
///
/// The tag word holds the kind in bits 63 to 60 and the payload in bits 59 to 0: the
/// index of the matching closer for `StartObject` and `StartArray`, the value for `Bool`,
/// the length of the text in bytes for the kinds that have text, and otherwise zero.
/// Plain text borrows from the source; text that had escape sequences is owned.
pub struct TapeEntry<'a> {
    tag_payload: u64,
    text: EntryText<'a>,
}

/// The number by which a kind is stored.
spec fn code(kind: TapeEntryKind) -> u64 {
    match kind {
        TapeEntryKind::Null => 0,
        TapeEntryKind::Bool => 1,
        TapeEntryKind::Number => 2,
        TapeEntryKind::String => 3,
        TapeEntryKind::EscapedString => 4,
        TapeEntryKind::Key => 5,
        TapeEntryKind::EscapedKey => 6,
        TapeEntryKind::StartObject => 7,
        TapeEntryKind::EndObject => 8,
        TapeEntryKind::StartArray => 9,
        TapeEntryKind::EndArray => 10,
    }
}

/// The payload that a tag word with the payload `v` holds: its low 60 bits.
pub open spec fn payload_field(v: int) -> int {
    v % (PAYLOAD_RANGE as int)
}

/// The payload of an entry with the text `t`: its length in bytes.
pub open spec fn text_payload(t: Seq<char>) -> int {
    payload_field((vstd::utf8::encode_utf8(t).len() as usize) as int)
}

/// The parts of a tag word that was put together from a kind and a payload.
proof fn lemma_tag(c: u64, v: u64)
    requires
        c <= 10,
    ensures
        ((c << KIND_SHIFT) | (v & PAYLOAD_MASK)) >> KIND_SHIFT == c,
        ((c << KIND_SHIFT) | (v & PAYLOAD_MASK)) & PAYLOAD_MASK == payload_field(v as int),
{
    assert(((c << 60u64) | (v & 0x0fff_ffff_ffff_ffff)) >> 60u64 == c) by (bit_vector)
        requires
            c <= 10,
    ;
    assert(((c << 60u64) | (v & 0x0fff_ffff_ffff_ffff)) & 0x0fff_ffff_ffff_ffff == v
        % 0x1000_0000_0000_0000) by (bit_vector);
}

/// The parts of a tag word whose payload was overwritten.
proof fn lemma_set_payload(tag: u64, v: u64)
    ensures
        ((tag & !PAYLOAD_MASK) | (v & PAYLOAD_MASK)) >> KIND_SHIFT == tag >> KIND_SHIFT,
        ((tag & !PAYLOAD_MASK) | (v & PAYLOAD_MASK)) & PAYLOAD_MASK == payload_field(v as int),
{
    assert(((tag & !0x0fff_ffff_ffff_ffffu64) | (v & 0x0fff_ffff_ffff_ffff)) >> 60u64 == tag >> 60u64)
        by (bit_vector);
    assert(((tag & !0x0fff_ffff_ffff_ffffu64) | (v & 0x0fff_ffff_ffff_ffff)) & 0x0fff_ffff_ffff_ffff
        == v % 0x1000_0000_0000_0000) by (bit_vector);
}

impl<'a> TapeEntry<'a> {
    /// The kind is one of the eleven, entries have text exactly where their kind does, the
    /// payload fits an index, and it is the one that the kind and the text call for.
    #[verifier::type_invariant]
    spec fn well_formed(self) -> bool {
        let c = self.tag_payload >> KIND_SHIFT;
        &&& c <= 10
        &&& (c == 2 || c == 3 || c == 5) == (self.text is Borrowed)
        &&& (c == 4 || c == 6) == (self.text is Owned)
        &&& self.tag_payload & PAYLOAD_MASK <= usize::MAX
        &&& c == 1 ==> self.tag_payload & PAYLOAD_MASK <= 1
        &&& c != 1 && c != 7 && c != 9 ==> self.tag_payload & PAYLOAD_MASK == self.text.length()
    }

    /// The payload field of the tag word.
    pub closed spec fn payload_word(&self) -> int {
        (self.tag_payload & PAYLOAD_MASK) as int
    }
}

impl<'a> View for TapeEntry<'a> {
    type V = Entry;

    closed spec fn view(&self) -> Entry {
        let c = self.tag_payload >> KIND_SHIFT;
        let p = self.tag_payload & PAYLOAD_MASK;
        if c == 0 {
            Entry::Null
        } else if c == 1 {
            Entry::Bool(p != 0)
        } else if c == 2 {
            Entry::Number(self.text.view())
        } else if c == 3 {
            Entry::String(self.text.view())
        } else if c == 4 {
            Entry::EscapedString(self.text.view())
        } else if c == 5 {
            Entry::Key(self.text.view())
        } else if c == 6 {
            Entry::EscapedKey(self.text.view())
        } else if c == 7 {
            Entry::StartObject(p as int)
        } else if c == 8 {
            Entry::EndObject
        } else if c == 9 {
            Entry::StartArray(p as int)
        } else {
            Entry::EndArray
        }
    }
}

impl<'a> TapeEntry<'a> {
    /// An entry of the given kind.
    fn make(kind: TapeEntryKind, payload: usize, text: EntryText<'a>) -> (r: Self)
        requires
            (kind is Number || kind is String || kind is Key) == (text is Borrowed),
            (kind is EscapedString || kind is EscapedKey) == (text is Owned),
            kind is Bool ==> payload <= 1,
            !(kind is Bool || kind is StartObject || kind is StartArray) ==> payload_field(
                payload as int,
            ) == text.length(),
        ensures
            r.tag_payload >> KIND_SHIFT == code(kind),
            r.tag_payload & PAYLOAD_MASK == payload_field(payload as int),
            r.text == text,
    {
        let c: u64 = match kind {
            TapeEntryKind::Null => 0,
            TapeEntryKind::Bool => 1,
            TapeEntryKind::Number => 2,
            TapeEntryKind::String => 3,
            TapeEntryKind::EscapedString => 4,
            TapeEntryKind::Key => 5,
            TapeEntryKind::EscapedKey => 6,
            TapeEntryKind::StartObject => 7,
            TapeEntryKind::EndObject => 8,
            TapeEntryKind::StartArray => 9,
            TapeEntryKind::EndArray => 10,
        };
        proof {
            lemma_tag(c, payload as u64);
        }
        TapeEntry { tag_payload: (c << KIND_SHIFT) | (payload as u64 & PAYLOAD_MASK), text }
    }

    /// The kind of this entry.
    pub fn kind(&self) -> (r: TapeEntryKind)
        ensures
            r == self@.kind(),
    {
        proof {
            use_type_invariant(self);
        }
        let c: u64 = self.tag_payload >> KIND_SHIFT;
        if c == 0 {
            TapeEntryKind::Null
        } else if c == 1 {
            TapeEntryKind::Bool
        } else if c == 2 {
            TapeEntryKind::Number
        } else if c == 3 {
            TapeEntryKind::String
        } else if c == 4 {
            TapeEntryKind::EscapedString
        } else if c == 5 {
            TapeEntryKind::Key
        } else if c == 6 {
            TapeEntryKind::EscapedKey
        } else if c == 7 {
            TapeEntryKind::StartObject
        } else if c == 8 {
            TapeEntryKind::EndObject
        } else if c == 9 {
            TapeEntryKind::StartArray
        } else {
            TapeEntryKind::EndArray
        }
    }

    /// The payload field, the low 60 bits of the tag word.
    fn payload(&self) -> (r: usize)
        ensures
            r == self.payload_word(),
    {
        proof {
            use_type_invariant(self);
        }
        (self.tag_payload & PAYLOAD_MASK) as usize
    }

    /// A `null`.
    pub fn null_entry() -> (r: Self)
        ensures
            r@ == Entry::Null,
            r.payload_word() == 0,
    {
        Self::make(TapeEntryKind::Null, 0, EntryText::Absent)
    }

    /// A `true` or `false`.
    pub fn bool_entry(v: bool) -> (r: Self)
        ensures
            r@ == Entry::Bool(v),
            r.payload_word() == (if v {
                1int
            } else {
                0
            }),
    {
        Self::make(
            TapeEntryKind::Bool,
            if v {
                1
            } else {
                0
            },
            EntryText::Absent,
        )
    }

    /// A number with the given text.
    pub fn number_entry(s: &'a str) -> (r: Self)
        ensures
            r@ == Entry::Number(s@),
            r.payload_word() == text_payload(s@),
    {
        Self::make(TapeEntryKind::Number, s.len(), EntryText::Borrowed(s))
    }

    /// A string value that borrows its text.
    pub fn string_entry(s: &'a str) -> (r: Self)
        ensures
            r@ == Entry::String(s@),
            r.payload_word() == text_payload(s@),
    {
        Self::make(TapeEntryKind::String, s.len(), EntryText::Borrowed(s))
    }

    /// A string value that owns its text.
    pub fn escaped_string_entry(s: Box<str>) -> (r: Self)
        ensures
            r@ == Entry::EscapedString(s@),
            r.payload_word() == text_payload(s@),
    {
        Self::make(TapeEntryKind::EscapedString, s.len(), EntryText::Owned(s))
    }

    /// A key that borrows its text.
    pub fn key_entry(s: &'a str) -> (r: Self)
        ensures
            r@ == Entry::Key(s@),
            r.payload_word() == text_payload(s@),
    {
        Self::make(TapeEntryKind::Key, s.len(), EntryText::Borrowed(s))
    }

    /// A key that owns its text.
    pub fn escaped_key_entry(s: Box<str>) -> (r: Self)
        ensures
            r@ == Entry::EscapedKey(s@),
            r.payload_word() == text_payload(s@),
    {
        Self::make(TapeEntryKind::EscapedKey, s.len(), EntryText::Owned(s))
    }

    /// The start of an object whose end stands at `end_idx`, of which the low 60 bits
    /// are kept.
    pub fn start_object_entry(end_idx: usize) -> (r: Self)
        ensures
            r@ == Entry::StartObject(payload_field(end_idx as int)),
            r.payload_word() == payload_field(end_idx as int),
    {
        Self::make(TapeEntryKind::StartObject, end_idx, EntryText::Absent)
    }

    /// The end of an object.
    pub fn end_object_entry() -> (r: Self)
        ensures
            r@ == Entry::EndObject,
            r.payload_word() == 0,
    {
        Self::make(TapeEntryKind::EndObject, 0, EntryText::Absent)
    }

    /// The start of an array whose end stands at `end_idx`, of which the low 60 bits are
    /// kept.
    pub fn start_array_entry(end_idx: usize) -> (r: Self)
        ensures
            r@ == Entry::StartArray(payload_field(end_idx as int)),
            r.payload_word() == payload_field(end_idx as int),
    {
        Self::make(TapeEntryKind::StartArray, end_idx, EntryText::Absent)
    }

    /// The end of an array.
    pub fn end_array_entry() -> (r: Self)
        ensures
            r@ == Entry::EndArray,
            r.payload_word() == 0,
    {
        Self::make(TapeEntryKind::EndArray, 0, EntryText::Absent)
    }

    /// Overwrites the payload field of the start of an object or an array without changing
    /// its kind.
    fn set_payload(&mut self, v: usize)
        requires
            old(self)@ is StartObject || old(self)@ is StartArray,
        ensures
            final(self)@ == (match old(self)@ {
                Entry::StartObject(_) => Entry::StartObject(payload_field(v as int)),
                _ => Entry::StartArray(payload_field(v as int)),
            }),
    {
        proof {
            use_type_invariant(&*self);
            lemma_set_payload(self.tag_payload, v as u64);
        }
        self.tag_payload = (self.tag_payload & !PAYLOAD_MASK) | (v as u64 & PAYLOAD_MASK);
    }

    /// The index of the matching closer if this is `StartObject`.
    pub fn as_start_object(&self) -> (r: Option<usize>)
        ensures
            match self@ {
                Entry::StartObject(e) => r == Some(e as usize) && 0 <= e <= usize::MAX,
                _ => r is None,
            },
    {
        if let TapeEntryKind::StartObject = self.kind() {
            Some(self.payload())
        } else {
            None
        }
    }

    /// The index of the matching closer if this is `StartArray`.
    pub fn as_start_array(&self) -> (r: Option<usize>)
        ensures
            match self@ {
                Entry::StartArray(e) => r == Some(e as usize) && 0 <= e <= usize::MAX,
                _ => r is None,
            },
    {
        if let TapeEntryKind::StartArray = self.kind() {
            Some(self.payload())
        } else {
            None
        }
    }

    /// The value if this is `Bool`.
    pub fn as_bool(&self) -> (r: Option<bool>)
        ensures
            r == (match self@ {
                Entry::Bool(v) => Some(v),
                _ => None,
            }),
    {
        if let TapeEntryKind::Bool = self.kind() {
            Some(self.payload() != 0)
        } else {
            None
        }
    }

    /// The text if this is `Number`.
    pub fn as_number(&self) -> (r: Option<&'a str>)
        ensures
            match self@ {
                Entry::Number(t) => r matches Some(s) && s@ == t,
                _ => r is None,
            },
    {
        proof {
            use_type_invariant(self);
        }
        match (self.kind(), &self.text) {
            (TapeEntryKind::Number, EntryText::Borrowed(s)) => Some(*s),
            _ => None,
        }
    }

    /// The text if this is `String` or `EscapedString`.
    pub fn as_string(&self) -> (r: Option<&str>)
        ensures
            match self@ {
                Entry::String(t) | Entry::EscapedString(t) => r matches Some(s) && s@ == t,
                _ => r is None,
            },
    {
        proof {
            use_type_invariant(self);
        }
        match (self.kind(), &self.text) {
            (TapeEntryKind::String, EntryText::Borrowed(s)) => Some(*s),
            (TapeEntryKind::EscapedString, EntryText::Owned(s)) => Some(&**s),
            _ => None,
        }
    }

    /// The text if this is `Key` or `EscapedKey`.
    pub fn as_key(&self) -> (r: Option<&str>)
        ensures
            match self@ {
                Entry::Key(t) | Entry::EscapedKey(t) => r matches Some(s) && s@ == t,
                _ => r is None,
            },
    {
        proof {
            use_type_invariant(self);
        }
        match (self.kind(), &self.text) {
            (TapeEntryKind::Key, EntryText::Borrowed(s)) => Some(*s),
            (TapeEntryKind::EscapedKey, EntryText::Owned(s)) => Some(&**s),
            _ => None,
        }
    }

    /// The text if this is `String`, which borrows it from the source.
    pub fn source_string(&self) -> (r: Option<&'a str>)
        ensures
            match self@ {
                Entry::String(t) => r matches Some(s) && s@ == t,
                _ => r is None,
            },
    {
        proof {
            use_type_invariant(self);
        }
        match (self.kind(), &self.text) {
            (TapeEntryKind::String, EntryText::Borrowed(s)) => Some(*s),
            _ => None,
        }
    }
}

/// Constructors named after the kinds.
#[allow(non_snake_case)]
impl<'a> TapeEntry<'a> {
    /// A `Bool` entry, see [`TapeEntry::bool_entry`].
    pub fn Bool(v: bool) -> (r: Self)
        ensures
            r@ == Entry::Bool(v),
            r.payload_word() == (if v {
                1int
            } else {
                0
            }),
    {
        Self::bool_entry(v)
    }

    /// A `Number` entry, see [`TapeEntry::number_entry`].
    pub fn Number(s: &'a str) -> (r: Self)
        ensures
            r@ == Entry::Number(s@),
            r.payload_word() == text_payload(s@),
    {
        Self::number_entry(s)
    }

    /// A `String` entry, see [`TapeEntry::string_entry`].
    pub fn String(s: &'a str) -> (r: Self)
        ensures
            r@ == Entry::String(s@),
            r.payload_word() == text_payload(s@),
    {
        Self::string_entry(s)
    }

    /// An `EscapedString` entry, see [`TapeEntry::escaped_string_entry`].
    pub fn EscapedString(s: Box<str>) -> (r: Self)
        ensures
            r@ == Entry::EscapedString(s@),
            r.payload_word() == text_payload(s@),
    {
        Self::escaped_string_entry(s)
    }

    /// A `Key` entry, see [`TapeEntry::key_entry`].
    pub fn Key(s: &'a str) -> (r: Self)
        ensures
            r@ == Entry::Key(s@),
            r.payload_word() == text_payload(s@),
    {
        Self::key_entry(s)
    }

    /// An `EscapedKey` entry, see [`TapeEntry::escaped_key_entry`].
    pub fn EscapedKey(s: Box<str>) -> (r: Self)
        ensures
            r@ == Entry::EscapedKey(s@),
            r.payload_word() == text_payload(s@),
    {
        Self::escaped_key_entry(s)
    }

    /// A `StartObject` entry, see [`TapeEntry::start_object_entry`].
    pub fn StartObject(end_idx: usize) -> (r: Self)
        ensures
            r@ == Entry::StartObject(payload_field(end_idx as int)),
            r.payload_word() == payload_field(end_idx as int),
    {
        Self::start_object_entry(end_idx)
    }

    /// A `StartArray` entry, see [`TapeEntry::start_array_entry`].
    pub fn StartArray(end_idx: usize) -> (r: Self)
        ensures
            r@ == Entry::StartArray(payload_field(end_idx as int)),
            r.payload_word() == payload_field(end_idx as int),
    {
        Self::start_array_entry(end_idx)
    }
}

impl<'a> Clone for TapeEntry<'a> {
    /// A copy of the entry, with a copy of the text if it is owned.
    fn clone(&self) -> (r: Self)
        ensures
            r@ == self@,
            r.payload_word() == self.payload_word(),
    {
        proof {
            use_type_invariant(self);
        }
        let text = match &self.text {
            EntryText::Absent => EntryText::Absent,
            EntryText::Borrowed(s) => EntryText::Borrowed(*s),
            EntryText::Owned(s) => EntryText::Owned((&**s).to_owned().into_boxed_str()),
        };
        TapeEntry { tag_payload: self.tag_payload, text }
    }
}

impl<'a> PartialEq for TapeEntry<'a> {
    /// Whether the two entries say the same: text is compared by content.
    fn eq(&self, other: &Self) -> (r: bool) {
        proof {
            use_type_invariant(self);
            use_type_invariant(other);
        }
        if self.kind() != other.kind() {
            return false;
        }
        match self.kind() {
            TapeEntryKind::Null | TapeEntryKind::EndObject | TapeEntryKind::EndArray => true,
            TapeEntryKind::Bool => (self.payload() != 0) == (other.payload() != 0),
            TapeEntryKind::StartObject | TapeEntryKind::StartArray => self.payload()
                == other.payload(),
            _ => match (&self.text, &other.text) {
                (EntryText::Borrowed(s), EntryText::Borrowed(t)) => same_text(s, t),
                (EntryText::Owned(s), EntryText::Owned(t)) => same_text(s, t),
                _ => false,
            },
        }
    }
}

impl<'a> vstd::std_specs::cmp::PartialEqSpecImpl for TapeEntry<'a> {
    open spec fn obeys_eq_spec() -> bool {
        true
    }

    open spec fn eq_spec(&self, other: &Self) -> bool {
        self@ == other@
    }
}

/// A flat sequence of [`TapeEntry`] tokens, as [`crate::parse_to_dom`] makes it.
///
/// Each `StartObject` and `StartArray` carries the index of its matching closer, so that
/// whole subtrees can be skipped in one step.
#[derive(Debug)]
pub struct Tape<'a> {
    pub entries: Vec<TapeEntry<'a>>,
    /// Some entry is `EscapedString` or `EscapedKey`, that is, owns its text.
    pub has_escapes: bool,
}

/// What the entries say.
pub open spec fn views(entries: Seq<TapeEntry>) -> Seq<Entry> {
    Seq::new(entries.len(), |i: int| entries[i]@)
}

impl<'a> View for Tape<'a> {
    type V = Seq<Entry>;

    open spec fn view(&self) -> Seq<Entry> {
        views(self.entries@)
    }
}

/// The entry for a string value with the given raw text.
pub open spec fn string_entry(raw: Seq<char>) -> Entry {
    if raw.contains('\\') {
        Entry::EscapedString(unescape::unescape(raw))
    } else {
        Entry::String(raw)
    }
}

/// The entry for a key with the given raw text.
pub open spec fn key_entry(raw: Seq<char>) -> Entry {
    if raw.contains('\\') {
        Entry::EscapedKey(unescape::unescape(raw))
    } else {
        Entry::Key(raw)
    }
}

/// The entries of `n` when the first of them has the index `base`.
pub open spec fn tape_of(n: Node, base: int) -> Seq<Entry>
    decreases n,
{
    match n {
        Node::Null => seq![Entry::Null],
        Node::Bool(v) => seq![Entry::Bool(v)],
        Node::Number(t) => seq![Entry::Number(t)],
        Node::String(raw) => seq![string_entry(raw)],
        Node::Object(ms) => {
            let inner = tape_of_members(ms, base + 1);
            seq![Entry::StartObject(base + 1 + inner.len())] + inner + seq![Entry::EndObject]
        },
        Node::Array(es) => {
            let inner = tape_of_elements(es, base + 1);
            seq![Entry::StartArray(base + 1 + inner.len())] + inner + seq![Entry::EndArray]
        },
    }
}

/// The entries of the members of an object, one after the other.
pub open spec fn tape_of_members(ms: Seq<(Seq<char>, Node)>, base: int) -> Seq<Entry>
    decreases ms,
{
    if ms.len() == 0 {
        seq![]
    } else {
        let first = tape_of(ms[0].1, base + 1);
        seq![key_entry(ms[0].0)] + first + tape_of_members(
            ms.drop_first(),
            base + 1 + first.len(),
        )
    }
}

/// The entries of the elements of an array, one after the other.
pub open spec fn tape_of_elements(es: Seq<Node>, base: int) -> Seq<Entry>
    decreases es,
{
    if es.len() == 0 {
        seq![]
    } else {
        let first = tape_of(es[0], base);
        first + tape_of_elements(es.drop_first(), base + first.len())
    }
}

/// Some entry of the tape owns its text.
pub open spec fn any_escaped(t: Seq<Entry>) -> bool {
    exists|i: int| 0 <= i < t.len() && (#[trigger] t[i]).is_escaped()
}

/// What a [`TapeWriter`] holds.
#[verifier::ext_equal]
pub struct Draft {
    /// The entries so far.
    pub entries: Seq<Entry>,
    /// The indices of the containers that are still open, outermost first.
    pub open: Seq<int>,
    /// Some entry owns its text.
    pub has_escapes: bool,
}

impl Draft {
    /// One entry more.
    pub open spec fn push(self, e: Entry) -> Draft {
        Draft {
            entries: self.entries.push(e),
            open: self.open,
            has_escapes: self.has_escapes || e.is_escaped(),
        }
    }

    /// A container starts.
    pub open spec fn start(self, e: Entry) -> Draft {
        Draft { open: self.open.push(self.entries.len() as int), ..self.push(e) }
    }

    /// The innermost container ends: its start learns where.
    pub open spec fn end(self, e: Entry) -> Draft {
        let here = payload_field(self.entries.len() as int);
        let all = self.push(e);
        if self.open.len() == 0 {
            all
        } else {
            let start = self.open.last();
            Draft {
                entries: all.entries.update(
                    start,
                    match all.entries[start] {
                        Entry::StartObject(_) => Entry::StartObject(here),
                        _ => Entry::StartArray(here),
                    },
                ),
                open: self.open.drop_last(),
                ..all
            }
        }
    }

    /// What an event leads to.
    pub open spec fn after(self, e: Event) -> Draft {
        match e {
            Event::Null => self.push(Entry::Null),
            Event::Bool(v) => self.push(Entry::Bool(v)),
            Event::Number(t) => self.push(Entry::Number(t)),
            Event::String(t) => self.push(Entry::String(t)),
            Event::EscapedString(raw) => self.push(Entry::EscapedString(unescape::unescape(raw))),
            Event::Key(t) => self.push(Entry::Key(t)),
            Event::EscapedKey(raw) => self.push(Entry::EscapedKey(unescape::unescape(raw))),
            Event::StartObject => self.start(Entry::StartObject(0)),
            Event::EndObject => self.end(Entry::EndObject),
            Event::StartArray => self.start(Entry::StartArray(0)),
            Event::EndArray => self.end(Entry::EndArray),
        }
    }

    /// What the events `es` lead to, one after the other.
    pub open spec fn after_all(self, es: Seq<Event>) -> Draft
        decreases es.len(),
    {
        if es.len() == 0 {
            self
        } else {
            self.after_all(es.drop_last()).after(es.last())
        }
    }
}

/// Builds a [`Tape`] from the events of a parse.
pub struct TapeWriter<'a> {
    entries: Vec<TapeEntry<'a>>,
    /// Indices of unmatched `StartObject` and `StartArray` entries.
    open: Vec<usize>,
    /// Some entry owns its text.
    has_escapes: bool,
}

impl<'a> View for TapeWriter<'a> {
    type V = Draft;

    closed spec fn view(&self) -> Draft {
        Draft {
            entries: views(self.entries@),
            open: Seq::new(self.open@.len(), |i: int| self.open@[i] as int),
            has_escapes: self.has_escapes,
        }
    }
}

impl<'a> TapeWriter<'a> {
    /// An empty writer.
    pub fn new() -> (r: Self)
        ensures
            r.wf(),
            r@ == (Draft { entries: seq![], open: seq![], has_escapes: false }),
    {
        let r = TapeWriter { entries: Vec::new(), open: Vec::new(), has_escapes: false };
        assert(r@ =~= Draft { entries: seq![], open: seq![], has_escapes: false });
        r
    }

    /// Appends an entry that does not own its text.
    fn push_entry(&mut self, e: TapeEntry<'a>)
        requires
            old(self).wf(),
            !e@.is_escaped(),
        ensures
            final(self).wf(),
            final(self)@ == old(self)@.push(e@),
    {
        self.entries.push(e);
        assert(self@ =~= old(self)@.push(e@));
    }

    /// Appends the start of a container.
    fn push_start(&mut self, e: TapeEntry<'a>)
        requires
            old(self).wf(),
            e@ is StartObject || e@ is StartArray,
        ensures
            final(self).wf(),
            final(self)@ == old(self)@.start(e@),
    {
        let idx: usize = self.entries.len();
        self.open.push(idx);
        self.entries.push(e);
        assert(self@ =~= old(self)@.start(e@));
    }

    /// Appends the end of a container and tells its start.
    fn push_end(&mut self, e: TapeEntry<'a>)
        requires
            old(self).wf(),
            e@ is EndObject || e@ is EndArray,
        ensures
            final(self).wf(),
            final(self)@ == old(self)@.end(e@),
    {
        let end_idx: usize = self.entries.len();
        self.entries.push(e);
        if let Some(start_idx) = self.open.pop() {
            assert(old(self)@.open.last() == start_idx);
            self.entries[start_idx].set_payload(end_idx);
        }
        assert(self@ =~= old(self)@.end(e@));
    }
}

impl<'a> Sax<'a> for TapeWriter<'a> {
    type Output = Tape<'a>;

    closed spec fn wf(&self) -> bool {
        forall|i: int|
            0 <= i < self.open@.len() ==> {
                &&& #[trigger] self.open@[i] < self.entries@.len()
                &&& self.entries@[self.open@[i] as int]@ is StartObject
                    || self.entries@[self.open@[i] as int]@ is StartArray
            }
    }

    open spec fn steps(pre: Self, event: Event, post: Self) -> bool {
        post@ == pre@.after(event)
    }

    open spec fn finishes(self, out: Option<Tape<'a>>) -> bool {
        if self@.open.len() == 0 && self@.entries.len() <= PAYLOAD_RANGE {
            out matches Some(t) && t@ == self@.entries && t.has_escapes == self@.has_escapes
        } else {
            out is None
        }
    }

    fn null(&mut self) {
        self.push_entry(TapeEntry::null_entry());
    }

    fn bool_val(&mut self, v: bool) {
        self.push_entry(TapeEntry::bool_entry(v));
    }

    fn number(&mut self, s: &'a str) {
        self.push_entry(TapeEntry::number_entry(s));
    }

    fn string(&mut self, s: &'a str) {
        self.push_entry(TapeEntry::string_entry(s));
    }

    fn escaped_string(&mut self, s: &str) {
        let mut text = std::string::String::new();
        unescape_str(s, &mut text);
        self.has_escapes = true;
        self.entries.push(TapeEntry::escaped_string_entry(text.into_boxed_str()));
        assert(self@ =~= old(self)@.after(Event::EscapedString(s@)));
    }

    fn key(&mut self, s: &'a str) {
        self.push_entry(TapeEntry::key_entry(s));
    }

    fn escaped_key(&mut self, s: &str) {
        let mut text = std::string::String::new();
        unescape_str(s, &mut text);
        self.has_escapes = true;
        self.entries.push(TapeEntry::escaped_key_entry(text.into_boxed_str()));
        assert(self@ =~= old(self)@.after(Event::EscapedKey(s@)));
    }

    fn start_object(&mut self) {
        self.push_start(TapeEntry::start_object_entry(0));
    }

    fn end_object(&mut self) {
        self.push_end(TapeEntry::end_object_entry());
    }

    fn start_array(&mut self) {
        self.push_start(TapeEntry::start_array_entry(0));
    }

    fn end_array(&mut self) {
        self.push_end(TapeEntry::end_array_entry());
    }

    /// The tape, if no container is open and every index fits the payload of an entry.
    fn finish(self) -> (out: Option<Tape<'a>>) {
        if self.open.is_empty() && self.entries.len() as u64 <= PAYLOAD_RANGE {
            Some(Tape { entries: self.entries, has_escapes: self.has_escapes })
        } else {
            None
        }
    }
}

}
