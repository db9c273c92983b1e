//! JSON values as mathematical objects.
use vstd::prelude::*;

use crate::grammar::Node;
use crate::unescape;

verus! {

/// A JSON value: numbers are text, strings and keys are decoded, members keep their
/// order.
#[verifier::ext_equal]
pub enum Json {
    Null,
    Bool(bool),
    Number(Seq<char>),
    String(Seq<char>),
    Array(Seq<Json>),
    Object(Seq<(Seq<char>, Json)>),
}

/// The value that `n` spells.
pub open spec fn json(n: Node) -> Json
    decreases n,
{
    match n {
        Node::Null => Json::Null,
        Node::Bool(v) => Json::Bool(v),
        Node::Number(t) => Json::Number(t),
        Node::String(raw) => Json::String(unescape::unescape(raw)),
        Node::Array(es) => Json::Array(json_elements(es)),
        Node::Object(ms) => Json::Object(json_members(ms)),
    }
}

/// The values that the elements of an array spell.
pub open spec fn json_elements(es: Seq<Node>) -> Seq<Json>
    decreases es,
{
    if es.len() == 0 {
        seq![]
    } else {
        seq![json(es[0])] + json_elements(es.drop_first())
    }
}

/// The keys and values that the members of an object spell.
pub open spec fn json_members(ms: Seq<(Seq<char>, Node)>) -> Seq<(Seq<char>, Json)>
    decreases ms,
{
    if ms.len() == 0 {
        seq![]
    } else {
        seq![(unescape::unescape(ms[0].0), json(ms[0].1))] + json_members(ms.drop_first())
    }
}

/// The value of the first member with the key `key`.
pub open spec fn lookup(ms: Seq<(Seq<char>, Json)>, key: Seq<char>) -> Option<Json>
    decreases ms.len(),
{
    if ms.len() == 0 {
        None
    } else if ms[0].0 == key {
        Some(ms[0].1)
    } else {
        lookup(ms.drop_first(), key)
    }
}

}
