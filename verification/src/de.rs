//! What a tape hands to a deserializer: the decisions, without the traits of a framework.
use vstd::prelude::*;
use vstd::string::*;

use crate::cursor::{TapeArrayIter, TapeObjectIter, TapeRef};
use crate::json::Json;
use crate::json_ref::JsonRef;
use crate::number;
use crate::number::{parse_i64, parse_u64};
use crate::tape::{Entry, TapeEntryKind};

verus! {

/// Deserialization error: a message.
#[derive(Debug)]
pub struct Error(std::string::String);

impl Error {
    /// The text of the message.
    pub closed spec fn text(&self) -> Seq<char> {
        self.0@
    }

    /// An error with the given message.
    pub fn custom(msg: &str) -> (r: Error)
        ensures
            r.text() == msg@,
    {
        Error(msg.to_owned())
    }

    /// The message.
    pub fn message(&self) -> (r: &str)
        ensures
            r@ == self.text(),
    {
        self.0.as_str()
    }
}

impl Clone for Error {
    /// An error with the same message.
    fn clone(&self) -> (r: Self)
        ensures
            r.text() == self.text(),
    {
        Error(self.0.clone())
    }
}

impl PartialEq for Error {
    fn eq(&self, other: &Self) -> (r: bool) {
        crate::text::same_text(self.0.as_str(), other.0.as_str())
    }
}

impl Eq for Error {

}

impl vstd::std_specs::cmp::PartialEqSpecImpl for Error {
    open spec fn obeys_eq_spec() -> bool {
        true
    }

    open spec fn eq_spec(&self, other: &Self) -> bool {
        self.text() == other.text()
    }
}

/// The one thing that a value at a cursor is offered as.
pub enum Visit<'t, 'src> {
    Unit,
    Bool(bool),
    U64(u64),
    I64(i64),
    /// A number that is no integer of 64 bits, as text.
    Number(&'src str),
    /// Text that borrows from the source.
    BorrowedStr(&'src str),
    /// Text that borrows from the tape.
    Str(&'t str),
    Array(TapeSeqAccess<'t, 'src>),
    Object(TapeMapAccess<'t, 'src>),
}

/// The unsigned integer of 64 bits that `text` spells.
pub open spec fn as_u64(text: Seq<char>) -> Option<int> {
    number::within(number::integer(vstd::utf8::encode_utf8(text), false), 0, u64::MAX as int)
}

/// The signed integer of 64 bits that `text` spells.
pub open spec fn as_i64(text: Seq<char>) -> Option<int> {
    number::within(
        number::integer(vstd::utf8::encode_utf8(text), true),
        i64::MIN as int,
        i64::MAX as int,
    )
}

impl<'t, 'src: 't> Visit<'t, 'src> {
    /// A number is offered as the first of `u64`, `i64` and text that fits it.
    pub open spec fn offers_number(&self, text: Seq<char>) -> bool {
        match (as_u64(text), as_i64(text)) {
            (Some(v), _) => self matches Visit::U64(x) && x == v,
            (None, Some(v)) => self matches Visit::I64(x) && x == v,
            (None, None) => self matches Visit::Number(s) && s@ == text,
        }
    }

    /// The visit fits the entry that the cursor points at.
    pub open spec fn offers(&self, c: TapeRef<'t, 'src>) -> bool {
        match c.here() {
            Entry::Null => self is Unit,
            Entry::Bool(v) => *self == Visit::<'t, 'src>::Bool(v),
            Entry::Number(text) => self.offers_number(text),
            Entry::String(text) => self matches Visit::BorrowedStr(s) && s@ == text,
            Entry::EscapedString(text) => self matches Visit::Str(s) && s@ == text,
            Entry::StartArray(_) => self matches Visit::Array(a) && a.starts(c),
            Entry::StartObject(_) => self matches Visit::Object(a) && a.starts(c),
            _ => false,
        }
    }
}

/// The entry is one at which a value starts.
pub open spec fn starts_value(e: Entry) -> bool {
    !(e is Key || e is EscapedKey || e is EndObject || e is EndArray)
}

/// What the value at `c` is offered as when nothing is known of what is wanted.
pub fn visit_any<'t, 'src: 't>(c: TapeRef<'t, 'src>) -> (r: Result<Visit<'t, 'src>, Error>)
    requires
        c.in_bounds(),
    ensures
        match r {
            Ok(v) => starts_value(c.here()) && v.offers(c),
            Err(e) => !starts_value(c.here()) && e.text()
                == "unexpected tape entry at value position"@,
        },
{
    let e = c.entry();
    match e.kind() {
        TapeEntryKind::Null => Ok(Visit::Unit),
        TapeEntryKind::Bool => match e.as_bool() {
            Some(v) => Ok(Visit::Bool(v)),
            None => unexpected(),
        },
        TapeEntryKind::Number => match e.as_number() {
            Some(s) => Ok(visit_number(s)),
            None => unexpected(),
        },
        TapeEntryKind::String => match e.source_string() {
            Some(s) => Ok(Visit::BorrowedStr(s)),
            None => unexpected(),
        },
        TapeEntryKind::EscapedString => match e.as_string() {
            Some(s) => Ok(Visit::Str(s)),
            None => unexpected(),
        },
        TapeEntryKind::StartObject => match visit_map(c) {
            Ok(a) => Ok(Visit::Object(a)),
            Err(_) => unexpected(),
        },
        TapeEntryKind::StartArray => match visit_seq(c) {
            Ok(a) => Ok(Visit::Array(a)),
            Err(_) => unexpected(),
        },
        _ => unexpected(),
    }
}

fn unexpected<'t, 'src: 't>() -> (r: Result<Visit<'t, 'src>, Error>)
    ensures
        r matches Err(e) && e.text() == "unexpected tape entry at value position"@,
{
    Err(Error::custom("unexpected tape entry at value position"))
}

/// What a number is offered as: integers are tried before anything else.
fn visit_number<'t, 'src: 't>(s: &'src str) -> (r: Visit<'t, 'src>)
    ensures
        r.offers_number(s@),
{
    if let Some(v) = parse_u64(s) {
        return Visit::U64(v);
    }
    if let Some(v) = parse_i64(s) {
        return Visit::I64(v);
    }
    Visit::Number(s)
}

/// What the value at `c` is offered as when a signed integer is wanted: a number must be
/// one, and comes back as text in `Err` of the inner result if it is none.
pub fn visit_signed<'t, 'src: 't>(c: TapeRef<'t, 'src>) -> (r: Option<Result<i64, &'src str>>)
    requires
        c.in_bounds(),
    ensures
        match c.here() {
            Entry::Number(text) => match r {
                Some(Ok(v)) => as_i64(text) == Some(v as int),
                Some(Err(s)) => as_i64(text) is None && s@ == text,
                None => false,
            },
            _ => r is None,
        },
{
    match c.entry().as_number() {
        Some(s) => match parse_i64(s) {
            Some(v) => Some(Ok(v)),
            None => Some(Err(s)),
        },
        None => None,
    }
}

/// What the value at `c` is offered as when an unsigned integer is wanted, see
/// [`visit_signed`].
pub fn visit_unsigned<'t, 'src: 't>(c: TapeRef<'t, 'src>) -> (r: Option<Result<u64, &'src str>>)
    requires
        c.in_bounds(),
    ensures
        match c.here() {
            Entry::Number(text) => match r {
                Some(Ok(v)) => as_u64(text) == Some(v as int),
                Some(Err(s)) => as_u64(text) is None && s@ == text,
                None => false,
            },
            _ => r is None,
        },
{
    match c.entry().as_number() {
        Some(s) => match parse_u64(s) {
            Some(v) => Some(Ok(v)),
            None => Some(Err(s)),
        },
        None => None,
    }
}

/// Whether the value at `c` is an absent optional value.
pub fn visit_is_none(c: TapeRef) -> (r: bool)
    requires
        c.in_bounds(),
    ensures
        r == c.here() is Null,
{
    c.entry().kind() == TapeEntryKind::Null
}

/// Succeeds if the value at `c` is `null`.
pub fn visit_unit(c: TapeRef) -> (r: Result<(), Error>)
    requires
        c.in_bounds(),
    ensures
        match r {
            Ok(_) => c.here() is Null,
            Err(e) => !(c.here() is Null) && e.text() == "expected null"@,
        },
{
    if c.entry().kind() == TapeEntryKind::Null {
        Ok(())
    } else {
        Err(Error::custom("expected null"))
    }
}

/// Access to the elements of the array at `c`.
pub fn visit_seq<'t, 'src: 't>(c: TapeRef<'t, 'src>) -> (r: Result<TapeSeqAccess<'t, 'src>, Error>)
    requires
        c.in_bounds(),
    ensures
        match r {
            Ok(a) => c.here() is StartArray && a.starts(c),
            Err(e) => !(c.here() is StartArray) && e.text() == "expected JSON array"@,
        },
{
    match c.array_iter() {
        Some(iter) => Ok(TapeSeqAccess { iter }),
        None => Err(Error::custom("expected JSON array")),
    }
}

/// Access to the members of the object at `c`.
pub fn visit_map<'t, 'src: 't>(c: TapeRef<'t, 'src>) -> (r: Result<TapeMapAccess<'t, 'src>, Error>)
    requires
        c.in_bounds(),
    ensures
        match r {
            Ok(a) => c.here() is StartObject && a.starts(c),
            Err(e) => !(c.here() is StartObject) && e.text() == "expected JSON object"@,
        },
{
    match c.object_iter() {
        Some(iter) => Ok(TapeMapAccess { iter, pending_value: None }),
        None => Err(Error::custom("expected JSON object")),
    }
}

/// How a value spells an enum variant.
pub enum EnumVisit<'t, 'src> {
    /// A string: the name of a variant without content.
    UnitVariant(TapeRef<'t, 'src>),
    /// An object: the name of a variant and its content, from the first member.
    Variant(&'t str, TapeRef<'t, 'src>),
}

/// The enum variant that the value at `c` spells.  An object must have a member.
pub fn visit_enum<'t, 'src: 't>(c: TapeRef<'t, 'src>) -> (r: Result<EnumVisit<'t, 'src>, Error>)
    requires
        c.wf(),
        !(c.json() matches Some(Json::Object(ms)) && ms.len() == 0),
    ensures
        match c.json() {
            Some(Json::String(_)) => r matches Ok(EnumVisit::UnitVariant(d)) && d == c,
            Some(Json::Object(ms)) => {
                &&& r matches Ok(EnumVisit::Variant(key, d))
                &&& d.wf()
                &&& d.json() == Some(ms[0].1)
                &&& key@ == ms[0].0
                &&& d.tape() == c.tape()
                &&& d.position() == c.position() + 2
                &&& c.members()[0] == (key@, d.position())
            },
            _ => r matches Err(e) && e.text() == "expected string or single-key object for enum"@,
        },
{
    match c.entry().kind() {
        TapeEntryKind::String | TapeEntryKind::EscapedString => Ok(EnumVisit::UnitVariant(c)),
        _ => {
            if let Some(iter) = c.object_iter() {
                let mut it = iter;
                if let Some((key, value)) = it.next() {
                    return Ok(EnumVisit::Variant(key, value));
                }
            }
            Err(Error::custom("expected string or single-key object for enum"))
        },
    }
}

/// The content that a variant can have.
pub enum VariantShape {
    Unit,
    Newtype,
    Tuple,
    Struct,
}

/// Whether a variant that a string spells can be taken as one with the given content: it
/// has none.
pub fn unit_only(shape: VariantShape) -> (r: Result<(), Error>)
    ensures
        match (shape, r) {
            (VariantShape::Unit, Ok(_)) => true,
            (VariantShape::Newtype, Err(e)) => e.text() == "expected unit variant, got newtype"@,
            (VariantShape::Tuple, Err(e)) => e.text() == "expected unit variant, got tuple"@,
            (VariantShape::Struct, Err(e)) => e.text() == "expected unit variant, got struct"@,
            _ => false,
        },
{
    match shape {
        VariantShape::Unit => Ok(()),
        VariantShape::Newtype => Err(Error::custom("expected unit variant, got newtype")),
        VariantShape::Tuple => Err(Error::custom("expected unit variant, got tuple")),
        VariantShape::Struct => Err(Error::custom("expected unit variant, got struct")),
    }
}

/// Access to the elements of an array, one after the other.
pub struct TapeSeqAccess<'t, 'src: 't> {
    iter: TapeArrayIter<'t, 'src>,
}

impl<'t, 'src: 't> TapeSeqAccess<'t, 'src> {
    /// The iterator over the elements that are still to come.
    pub closed spec fn iter(self) -> TapeArrayIter<'t, 'src> {
        self.iter
    }

    /// There are elements all the way to the end of the array.
    pub open spec fn wf(self) -> bool {
        self.iter().wf()
    }

    /// The elements that are still to come.
    pub open spec fn remaining(self) -> Seq<Json> {
        self.iter().remaining()
    }

    /// The access starts at the first element of the array at `c`.
    pub open spec fn starts(self, c: TapeRef<'t, 'src>) -> bool {
        &&& self.iter().starts(c)
        &&& self.iter().places() == c.elements()
        &&& c.wf() ==> self.wf() && c.json() == Some(Json::Array(self.remaining()))
    }

    /// The next element.
    pub fn next_element(&mut self) -> (r: Option<TapeRef<'t, 'src>>)
        requires
            old(self).wf(),
        ensures
            final(self).wf(),
            old(self).iter().yields(r, final(self).iter()),
    {
        self.iter.next()
    }
}

/// Access to the members of an object: a key, then its value, then the next key.
pub struct TapeMapAccess<'t, 'src: 't> {
    iter: TapeObjectIter<'t, 'src>,
    /// The value of the key that was handed out last.
    pending_value: Option<TapeRef<'t, 'src>>,
}

impl<'t, 'src: 't> TapeMapAccess<'t, 'src> {
    /// The iterator over the members whose keys are still to come.
    pub closed spec fn iter(self) -> TapeObjectIter<'t, 'src> {
        self.iter
    }

    /// The value that waits to be fetched.
    pub closed spec fn pending(self) -> Option<TapeRef<'t, 'src>> {
        self.pending_value
    }

    /// There are members all the way to the end of the object.
    pub open spec fn wf(self) -> bool {
        self.iter().wf() && (self.pending() matches Some(c) ==> c.wf() && c.json() is Some)
    }

    /// The members whose keys are still to come.
    pub open spec fn remaining(self) -> Seq<(Seq<char>, Json)> {
        self.iter().remaining()
    }

    /// The access starts at the first member of the object at `c`.
    pub open spec fn starts(self, c: TapeRef<'t, 'src>) -> bool {
        &&& self.iter().starts(c)
        &&& self.iter().places() == c.members()
        &&& self.pending() is None
        &&& c.wf() ==> self.wf() && c.json() == Some(Json::Object(self.remaining()))
    }

    /// The next key.  Its value is what [`next_value`](TapeMapAccess::next_value) returns.
    pub fn next_key(&mut self) -> (r: Option<&'t str>)
        requires
            old(self).wf(),
        ensures
            final(self).wf(),
            match r {
                Some(key) => {
                    &&& final(self).pending() matches Some(value)
                    &&& old(self).iter().yields(Some((key, value)), final(self).iter())
                },
                None => {
                    &&& old(self).iter().yields(None, final(self).iter())
                    &&& *final(self) == *old(self)
                },
            },
    {
        match self.iter.next() {
            None => None,
            Some((key, value)) => {
                self.pending_value = Some(value);
                Some(key)
            },
        }
    }

    /// The value of the key that was handed out last, once.
    pub fn next_value(&mut self) -> (r: Result<TapeRef<'t, 'src>, Error>)
        requires
            old(self).wf(),
        ensures
            final(self).wf(),
            final(self).iter() == old(self).iter(),
            final(self).pending() is None,
            match r {
                Ok(value) => value.wf() && value.json() is Some && old(self).pending() == Some(
                    value,
                ),
                Err(e) => {
                    &&& old(self).pending() is None
                    &&& e.text() == "next_value called before next_key"@
                },
            },
    {
        let pending = self.pending_value;
        self.pending_value = None;
        match pending {
            Some(value) => Ok(value),
            None => Err(Error::custom("next_value called before next_key")),
        }
    }
}

}
