//! Read-only access to parsed values.
use vstd::prelude::*;
use vstd::utf8::*;

use crate::json;
use crate::json::Json;
use crate::number;
use crate::number::{parse_i64, parse_u64};

verus! {

/// The member of `j` with the key `key`, if `j` is an object that has one.
pub open spec fn member(j: Option<Json>, key: Seq<char>) -> Option<Json> {
    match j {
        Some(Json::Object(ms)) => json::lookup(ms, key),
        _ => None,
    }
}

/// The element of `j` at `i`, if `j` is an array that has one.
pub open spec fn element(j: Option<Json>, i: int) -> Option<Json> {
    match j {
        Some(Json::Array(es)) => if 0 <= i < es.len() {
            Some(es[i])
        } else {
            None
        },
        _ => None,
    }
}

/// The number of elements or members of `j`, if it is an array or an object.
pub open spec fn size(j: Option<Json>) -> Option<int> {
    match j {
        Some(Json::Array(es)) => Some(es.len() as int),
        Some(Json::Object(ms)) => Some(ms.len() as int),
        _ => None,
    }
}

/// The text of `j` in UTF-8, if it is a number.
pub open spec fn number_bytes(j: Option<Json>) -> Option<Seq<u8>> {
    match j {
        Some(Json::Number(t)) => Some(encode_utf8(t)),
        _ => None,
    }
}

/// The integer from `low` to `high` that `j` is, if it is a number that spells one.
pub open spec fn integer_in(j: Option<Json>, minus_allowed: bool, low: int, high: int) -> Option<
    int,
> {
    match number_bytes(j) {
        Some(b) => number::within(number::integer(b, minus_allowed), low, high),
        None => None,
    }
}

/// The integer of type `i64` that `j` is.
pub open spec fn signed(j: Option<Json>) -> Option<int> {
    integer_in(j, true, i64::MIN as int, i64::MAX as int)
}

/// The integer of type `u64` that `j` is.
pub open spec fn unsigned(j: Option<Json>) -> Option<int> {
    integer_in(j, false, 0, u64::MAX as int)
}

/// Read-only, tree-like access to a parsed JSON value.
///
/// The lifetime `'a` is the string-access lifetime: returned `&'a str` slices are valid
/// for at least `'a`.
///
/// Implemented by `&'a Value<'a>`, by [`crate::TapeRef`], and by `Option<J>` where
/// `J: JsonRef<'a>`: a wrapper that enables chaining without intermediate `?` or
/// `.and_then`, as in `root.get("a").get("b").as_str()`.
pub trait JsonRef<'a>: Sized + Copy {
    /// The node type returned by [`get`](JsonRef::get) and [`index_at`](JsonRef::index_at).
    ///
    /// For nodes this is `Self`.  For `Option<J>` it is `J::Item`, which keeps chains
    /// flat: `opt.get("a")` returns `Option<J::Item>`, not `Option<Option<J>>`.
    type Item;

    /// The reference leads to a value, or to nothing on purpose.
    spec fn wf(self) -> bool;

    /// The value, if the reference leads to one.
    spec fn json(self) -> Option<Json>;

    /// `wf` of an item.
    spec fn item_wf(item: Self::Item) -> bool;

    /// `json` of an item.
    spec fn item_json(item: Self::Item) -> Option<Json>;

    /// `item` is the place of the first member with the key `key`.
    spec fn is_member(self, key: Seq<char>, item: Self::Item) -> bool;

    /// `item` is the place of the element at `i`.
    spec fn is_element(self, i: int, item: Self::Item) -> bool;

    /// Returns `true` if this value is JSON `null`.
    fn is_null(self) -> (r: bool)
        requires
            self.wf(),
        ensures
            r == (self.json() matches Some(j) && j is Null),
    {
        self.as_null().is_some()
    }

    /// Returns `true` if this value is a JSON boolean.
    fn is_bool(self) -> (r: bool)
        requires
            self.wf(),
        ensures
            r == (self.json() matches Some(j) && j is Bool),
    {
        self.as_bool().is_some()
    }

    /// Returns `true` if this value is a JSON number.
    fn is_number(self) -> (r: bool)
        requires
            self.wf(),
        ensures
            r == (self.json() matches Some(j) && j is Number),
    {
        self.as_number_str().is_some()
    }

    /// Returns `true` if this value is a JSON string.
    fn is_string(self) -> (r: bool)
        requires
            self.wf(),
        ensures
            r == (self.json() matches Some(j) && j is String),
    {
        self.as_str().is_some()
    }

    /// Returns `true` if this value is a JSON array.
    fn is_array(self) -> (r: bool)
        requires
            self.wf(),
        ensures
            r == (self.json() matches Some(j) && j is Array),
    ;

    /// Returns `true` if this value is a JSON object.
    fn is_object(self) -> (r: bool)
        requires
            self.wf(),
        ensures
            r == (self.json() matches Some(j) && j is Object),
    ;

    /// Returns `Some(())` if this value is `null`, otherwise `None`.
    fn as_null(self) -> (r: Option<()>)
        requires
            self.wf(),
        ensures
            r is Some == (self.json() matches Some(j) && j is Null),
    ;

    /// Returns the boolean if this value is a boolean, otherwise `None`.
    fn as_bool(self) -> (r: Option<bool>)
        requires
            self.wf(),
        ensures
            match self.json() {
                Some(Json::Bool(v)) => r == Some(v),
                _ => r is None,
            },
    ;

    /// Returns the raw number token if this value is a number, otherwise `None`.
    fn as_number_str(self) -> (r: Option<&'a str>)
        requires
            self.wf(),
        ensures
            match self.json() {
                Some(Json::Number(t)) => r matches Some(s) && s@ == t,
                _ => r is None,
            },
    ;

    /// Returns the string content if this value is a JSON string, otherwise `None`.
    fn as_str(self) -> (r: Option<&'a str>)
        requires
            self.wf(),
        ensures
            match self.json() {
                Some(Json::String(t)) => r matches Some(s) && s@ == t,
                _ => r is None,
            },
    ;

    /// Reads the number as `i64`.
    ///
    /// Returns `None` for non-numbers, for numbers with a fraction or an exponent, and
    /// when the value is out of range.
    fn as_i64(self) -> (r: Option<i64>)
        requires
            self.wf(),
        ensures
            match r {
                Some(v) => signed(self.json()) == Some(v as int),
                None => signed(self.json()) is None,
            },
    {
        match self.as_number_str() {
            Some(s) => parse_i64(s),
            None => None,
        }
    }

    /// Reads the number as `u64`.
    ///
    /// Returns `None` for non-numbers, for numbers with a minus sign, a fraction or an
    /// exponent, and when the value is out of range.
    fn as_u64(self) -> (r: Option<u64>)
        requires
            self.wf(),
        ensures
            match r {
                Some(v) => unsigned(self.json()) == Some(v as int),
                None => unsigned(self.json()) is None,
            },
    {
        match self.as_number_str() {
            Some(s) => parse_u64(s),
            None => None,
        }
    }

    /// Looks up an object member by key; of several with that key, the first.
    ///
    /// Returns `None` if this value is not an object or the key is absent.
    fn get(self, key: &str) -> (r: Option<Self::Item>)
        requires
            self.wf(),
        ensures
            match r {
                Some(x) => {
                    &&& Self::item_wf(x)
                    &&& Self::item_json(x) is Some
                    &&& Self::item_json(x) == member(self.json(), key@)
                    &&& self.is_member(key@, x)
                },
                None => member(self.json(), key@) is None,
            },
    ;

    /// Indexes into an array by zero-based position.
    ///
    /// Returns `None` if this value is not an array or `i` is out of bounds.
    fn index_at(self, i: usize) -> (r: Option<Self::Item>)
        requires
            self.wf(),
        ensures
            match r {
                Some(x) => {
                    &&& Self::item_wf(x)
                    &&& Self::item_json(x) is Some
                    &&& Self::item_json(x) == element(self.json(), i as int)
                    &&& self.is_element(i as int, x)
                },
                None => element(self.json(), i as int) is None,
            },
    ;

    /// Returns the number of elements (array) or key-value pairs (object).
    ///
    /// Returns `None` if this value is neither an array nor an object.
    fn len(self) -> (r: Option<usize>)
        requires
            self.wf(),
        ensures
            match r {
                Some(n) => size(self.json()) == Some(n as int),
                None => size(self.json()) is None,
            },
    ;
}

/// Every accessor returns the same as on the inner value, and on `None` the answer for a
/// value that is not there: `false` or `None`.
impl<'a, J: JsonRef<'a>> JsonRef<'a> for Option<J> {
    type Item = J::Item;

    open spec fn wf(self) -> bool {
        self matches Some(j) ==> j.wf()
    }

    open spec fn json(self) -> Option<Json> {
        match self {
            Some(j) => j.json(),
            None => None,
        }
    }

    open spec fn item_wf(item: J::Item) -> bool {
        J::item_wf(item)
    }

    open spec fn item_json(item: J::Item) -> Option<Json> {
        J::item_json(item)
    }

    open spec fn is_member(self, key: Seq<char>, item: J::Item) -> bool {
        self matches Some(j) && j.is_member(key, item)
    }

    open spec fn is_element(self, i: int, item: J::Item) -> bool {
        self matches Some(j) && j.is_element(i, item)
    }

    fn is_array(self) -> bool {
        match self {
            Some(j) => j.is_array(),
            None => false,
        }
    }

    fn is_object(self) -> bool {
        match self {
            Some(j) => j.is_object(),
            None => false,
        }
    }

    fn as_null(self) -> Option<()> {
        match self {
            Some(j) => j.as_null(),
            None => None,
        }
    }

    fn as_bool(self) -> Option<bool> {
        match self {
            Some(j) => j.as_bool(),
            None => None,
        }
    }

    fn as_number_str(self) -> Option<&'a str> {
        match self {
            Some(j) => j.as_number_str(),
            None => None,
        }
    }

    fn as_str(self) -> Option<&'a str> {
        match self {
            Some(j) => j.as_str(),
            None => None,
        }
    }

    fn get(self, key: &str) -> Option<J::Item> {
        match self {
            Some(j) => j.get(key),
            None => None,
        }
    }

    fn index_at(self, i: usize) -> Option<J::Item> {
        match self {
            Some(j) => j.index_at(i),
            None => None,
        }
    }

    fn len(self) -> Option<usize> {
        match self {
            Some(j) => j.len(),
            None => None,
        }
    }
}

}
