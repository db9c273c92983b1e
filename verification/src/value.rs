//! Parsing into a tree of values.
use std::borrow::Cow;
use vstd::prelude::*;
use vstd::string::*;
use vstd::utf8::*;

use crate::grammar;
use crate::grammar::{Event, Node};
use crate::json;
use crate::json::Json;
use crate::json_ref::JsonRef;
use crate::parse::parse_with;
use crate::sax;
use crate::sax::Sax;
use crate::text::same_text;
use crate::unescape;
use crate::unescape::unescape_str;

verus! {

/// A parsed JSON value (tree representation).
#[derive(Debug)]
pub enum Value<'a> {
    String(Cow<'a, str>),
    Number(&'a str),
    Bool(bool),
    Null,
    Object(Vec<(Cow<'a, str>, Value<'a>)>),
    Array(Vec<Value<'a>>),
}

/// The JSON value that `v` represents.
pub open spec fn value_json(v: Value) -> Json
    decreases v,
{
    match v {
        Value::String(s) => Json::String(s@),
        Value::Number(s) => Json::Number(s@),
        Value::Bool(b) => Json::Bool(b),
        Value::Null => Json::Null,
        Value::Object(ms) => Json::Object(member_values(ms@)),
        Value::Array(es) => Json::Array(element_values(es@)),
    }
}

/// The keys and values of the members of an object.
pub open spec fn member_values(ms: Seq<(Cow<str>, Value)>) -> Seq<(Seq<char>, Json)>
    decreases ms,
{
    if ms.len() == 0 {
        seq![]
    } else {
        seq![(ms[0].0@, value_json(ms[0].1))] + member_values(ms.drop_first())
    }
}

/// The elements of an array.
pub open spec fn element_values(es: Seq<Value>) -> Seq<Json>
    decreases es,
{
    if es.len() == 0 {
        seq![]
    } else {
        seq![value_json(es[0])] + element_values(es.drop_first())
    }
}

impl<'a> View for Value<'a> {
    type V = Json;

    open spec fn view(&self) -> Json {
        value_json(*self)
    }
}

/// The text of a string or a key of a tree, and whether the tree owns it.
#[verifier::ext_equal]
pub struct Text {
    pub text: Seq<char>,
    pub owned: bool,
}

/// What a tree holds, with who owns each text.
#[verifier::ext_equal]
pub enum Tree {
    Null,
    Bool(bool),
    Number(Seq<char>),
    String(Text),
    Array(Seq<Tree>),
    Object(Seq<(Text, Tree)>),
}

/// The text of a borrowed or owned string.
pub open spec fn cow_text(s: Cow<str>) -> Text {
    Text { text: s@, owned: s is Owned }
}

/// What `v` holds.
pub open spec fn tree(v: Value) -> Tree
    decreases v,
{
    match v {
        Value::String(s) => Tree::String(cow_text(s)),
        Value::Number(s) => Tree::Number(s@),
        Value::Bool(b) => Tree::Bool(b),
        Value::Null => Tree::Null,
        Value::Object(ms) => Tree::Object(member_trees(ms@)),
        Value::Array(es) => Tree::Array(element_trees(es@)),
    }
}

/// What the members of an object hold.
pub open spec fn member_trees(ms: Seq<(Cow<str>, Value)>) -> Seq<(Text, Tree)>
    decreases ms,
{
    if ms.len() == 0 {
        seq![]
    } else {
        seq![(cow_text(ms[0].0), tree(ms[0].1))] + member_trees(ms.drop_first())
    }
}

/// What the elements of an array hold.
pub open spec fn element_trees(es: Seq<Value>) -> Seq<Tree>
    decreases es,
{
    if es.len() == 0 {
        seq![]
    } else {
        seq![tree(es[0])] + element_trees(es.drop_first())
    }
}

/// The text that stands as `raw` in the source: borrowed from there if it has no escape
/// sequences, and owned otherwise.
pub open spec fn raw_text(raw: Seq<char>) -> Text {
    if raw.contains('\\') {
        Text { text: unescape::unescape(raw), owned: true }
    } else {
        Text { text: raw, owned: false }
    }
}

/// The tree of `n`: every text without escape sequences borrows from the source.
pub open spec fn node_tree(n: Node) -> Tree
    decreases n,
{
    match n {
        Node::Null => Tree::Null,
        Node::Bool(v) => Tree::Bool(v),
        Node::Number(t) => Tree::Number(t),
        Node::String(raw) => Tree::String(raw_text(raw)),
        Node::Array(es) => Tree::Array(node_element_trees(es)),
        Node::Object(ms) => Tree::Object(node_member_trees(ms)),
    }
}

/// The trees of the elements of an array.
pub open spec fn node_element_trees(es: Seq<Node>) -> Seq<Tree>
    decreases es,
{
    if es.len() == 0 {
        seq![]
    } else {
        seq![node_tree(es[0])] + node_element_trees(es.drop_first())
    }
}

/// The keys and trees of the members of an object.
pub open spec fn node_member_trees(ms: Seq<(Seq<char>, Node)>) -> Seq<(Text, Tree)>
    decreases ms,
{
    if ms.len() == 0 {
        seq![]
    } else {
        seq![(raw_text(ms[0].0), node_tree(ms[0].1))] + node_member_trees(ms.drop_first())
    }
}

/// One element more at the end.
proof fn lemma_element_tree_push(es: Seq<Value>, v: Value)
    ensures
        element_trees(es.push(v)) == element_trees(es).push(tree(v)),
    decreases es.len(),
{
    let all = es.push(v);
    if es.len() == 0 {
        assert(element_trees(all.drop_first()).len() == 0);
        assert(element_trees(all) =~= seq![tree(v)]);
    } else {
        assert(all.drop_first() =~= es.drop_first().push(v));
        lemma_element_tree_push(es.drop_first(), v);
        assert(element_trees(all) =~= element_trees(es).push(tree(v)));
    }
}

/// One member more at the end.
proof fn lemma_member_tree_push(ms: Seq<(Cow<str>, Value)>, m: (Cow<str>, Value))
    ensures
        member_trees(ms.push(m)) == member_trees(ms).push((cow_text(m.0), tree(m.1))),
    decreases ms.len(),
{
    let all = ms.push(m);
    if ms.len() == 0 {
        assert(member_trees(all.drop_first()).len() == 0);
        assert(member_trees(all) =~= seq![(cow_text(m.0), tree(m.1))]);
    } else {
        assert(all.drop_first() =~= ms.drop_first().push(m));
        lemma_member_tree_push(ms.drop_first(), m);
        assert(member_trees(all) =~= member_trees(ms).push((cow_text(m.0), tree(m.1))));
    }
}

/// A tree that holds what the tree of `n` holds represents the value of `n`.
proof fn lemma_tree_json(v: Value, n: Node)
    requires
        tree(v) == node_tree(n),
    ensures
        v@ == json::json(n),
    decreases n,
{
    match (v, n) {
        (Value::Object(xs), Node::Object(ms)) => lemma_tree_members(xs@, ms),
        (Value::Array(xs), Node::Array(es)) => lemma_tree_elements(xs@, es),
        (Value::String(s), Node::String(raw)) => {
            if !raw.contains('\\') {
                unescape::lemma_unescape_plain(raw);
            }
        },
        _ => {},
    }
}

proof fn lemma_tree_elements(xs: Seq<Value>, es: Seq<Node>)
    requires
        element_trees(xs) == node_element_trees(es),
    ensures
        element_values(xs) == json::json_elements(es),
    decreases es,
{
    let x = element_trees(xs);
    let y = node_element_trees(es);
    assert(x.len() == y.len());
    if es.len() > 0 {
        assert(xs.len() > 0);
        assert(x[0] == y[0]);
        assert(x.drop_first() =~= element_trees(xs.drop_first()));
        assert(y.drop_first() =~= node_element_trees(es.drop_first()));
        lemma_tree_json(xs[0], es[0]);
        lemma_tree_elements(xs.drop_first(), es.drop_first());
    } else {
        assert(xs.len() == 0);
    }
}

proof fn lemma_tree_members(xs: Seq<(Cow<str>, Value)>, ms: Seq<(Seq<char>, Node)>)
    requires
        member_trees(xs) == node_member_trees(ms),
    ensures
        member_values(xs) == json::json_members(ms),
    decreases ms,
{
    let x = member_trees(xs);
    let y = node_member_trees(ms);
    assert(x.len() == y.len());
    if ms.len() > 0 {
        assert(xs.len() > 0);
        assert(x[0] == y[0]);
        assert(x.drop_first() =~= member_trees(xs.drop_first()));
        assert(y.drop_first() =~= node_member_trees(ms.drop_first()));
        if !ms[0].0.contains('\\') {
            unescape::lemma_unescape_plain(ms[0].0);
        }
        lemma_tree_json(xs[0].1, ms[0].1);
        lemma_tree_members(xs.drop_first(), ms.drop_first());
    } else {
        assert(xs.len() == 0);
    }
}

/// The members stand in order.
pub proof fn lemma_member_values(ms: Seq<(Cow<str>, Value)>)
    ensures
        member_values(ms).len() == ms.len(),
        forall|i: int|
            0 <= i < ms.len() ==> #[trigger] member_values(ms)[i] == (ms[i].0@, ms[i].1@),
    decreases ms.len(),
{
    if ms.len() > 0 {
        let tail = ms.drop_first();
        lemma_member_values(tail);
        assert forall|i: int| 0 <= i < ms.len() implies #[trigger] member_values(ms)[i] == (
            ms[i].0@,
            ms[i].1@,
        ) by {
            if i > 0 {
                assert(member_values(tail)[i - 1] == (tail[i - 1].0@, tail[i - 1].1@));
            }
        }
    }
}

/// The elements stand in order.
pub proof fn lemma_element_values(es: Seq<Value>)
    ensures
        element_values(es).len() == es.len(),
        forall|i: int| 0 <= i < es.len() ==> #[trigger] element_values(es)[i] == es[i]@,
    decreases es.len(),
{
    if es.len() > 0 {
        let tail = es.drop_first();
        lemma_element_values(tail);
        assert forall|i: int| 0 <= i < es.len() implies #[trigger] element_values(es)[i] == es[i]@ by {
            if i > 0 {
                assert(element_values(tail)[i - 1] == tail[i - 1]@);
            }
        }
    }
}

/// The text of a borrowed or owned string.
fn cow_str<'b>(s: &'b Cow<'b, str>) -> (r: &'b str)
    ensures
        r@ == s@,
{
    match s {
        Cow::Borrowed(t) => *t,
        Cow::Owned(t) => t.as_str(),
    }
}

/// Whether the two values are the same.
fn same_value(a: &Value, b: &Value) -> (r: bool)
    ensures
        r == (a@ == b@),
    decreases a,
{
    match (a, b) {
        (Value::String(s), Value::String(t)) => same_text(cow_str(s), cow_str(t)),
        (Value::Number(s), Value::Number(t)) => same_text(s, t),
        (Value::Bool(x), Value::Bool(y)) => *x == *y,
        (Value::Null, Value::Null) => true,
        (Value::Object(xs), Value::Object(ys)) => {
            proof {
                lemma_member_values(xs@);
                lemma_member_values(ys@);
            }
            if xs.len() != ys.len() {
                return false;
            }
            let mut i: usize = 0;
            while i < xs.len()
                invariant
                    i <= xs@.len() == ys@.len(),
                    decreases_to!(a => xs@),
                    a@ == Json::Object(member_values(xs@)),
                    b@ == Json::Object(member_values(ys@)),
                    member_values(xs@).len() == xs@.len(),
                    member_values(ys@).len() == ys@.len(),
                    forall|k: int|
                        0 <= k < xs@.len() ==> #[trigger] member_values(xs@)[k] == (
                            xs@[k].0@,
                            xs@[k].1@,
                        ),
                    forall|k: int|
                        0 <= k < ys@.len() ==> #[trigger] member_values(ys@)[k] == (
                            ys@[k].0@,
                            ys@[k].1@,
                        ),
                    forall|k: int|
                        0 <= k < i ==> #[trigger] member_values(xs@)[k] == member_values(ys@)[k],
                decreases xs@.len() - i,
            {
                assert(member_values(xs@)[i as int] == (xs@[i as int].0@, xs@[i as int].1@));
                assert(member_values(ys@)[i as int] == (ys@[i as int].0@, ys@[i as int].1@));
                if !same_text(cow_str(&xs[i].0), cow_str(&ys[i].0)) || !same_value(
                    &xs[i].1,
                    &ys[i].1,
                ) {
                    return false;
                }
                i += 1;
            }
            assert(member_values(xs@) =~= member_values(ys@));
            true
        },
        (Value::Array(xs), Value::Array(ys)) => {
            proof {
                lemma_element_values(xs@);
                lemma_element_values(ys@);
            }
            if xs.len() != ys.len() {
                return false;
            }
            let mut i: usize = 0;
            while i < xs.len()
                invariant
                    i <= xs@.len() == ys@.len(),
                    decreases_to!(a => xs@),
                    a@ == Json::Array(element_values(xs@)),
                    b@ == Json::Array(element_values(ys@)),
                    element_values(xs@).len() == xs@.len(),
                    element_values(ys@).len() == ys@.len(),
                    forall|k: int|
                        0 <= k < xs@.len() ==> #[trigger] element_values(xs@)[k] == xs@[k]@,
                    forall|k: int|
                        0 <= k < ys@.len() ==> #[trigger] element_values(ys@)[k] == ys@[k]@,
                    forall|k: int|
                        0 <= k < i ==> #[trigger] element_values(xs@)[k] == element_values(ys@)[k],
                decreases xs@.len() - i,
            {
                assert(element_values(xs@)[i as int] == xs@[i as int]@);
                assert(element_values(ys@)[i as int] == ys@[i as int]@);
                if !same_value(&xs[i], &ys[i]) {
                    return false;
                }
                i += 1;
            }
            assert(element_values(xs@) =~= element_values(ys@));
            true
        },
        _ => false,
    }
}

impl<'a> PartialEq for Value<'a> {
    /// Whether the two values are the same: text is compared by content.
    fn eq(&self, other: &Self) -> (r: bool) {
        same_value(self, other)
    }
}

impl<'a> vstd::std_specs::cmp::PartialEqSpecImpl for Value<'a> {
    open spec fn obeys_eq_spec() -> bool {
        true
    }

    open spec fn eq_spec(&self, other: &Self) -> bool {
        self@ == other@
    }
}

/// A copy of a borrowed or owned string.
fn clone_cow<'a>(s: &Cow<'a, str>) -> (r: Cow<'a, str>)
    ensures
        cow_text(r) == cow_text(*s),
{
    match s {
        Cow::Borrowed(t) => Cow::Borrowed(*t),
        Cow::Owned(t) => Cow::Owned(t.clone()),
    }
}

/// One element more at the end.
proof fn lemma_element_push(es: Seq<Value>, v: Value)
    ensures
        element_values(es.push(v)) == element_values(es).push(v@),
{
    let all = es.push(v);
    lemma_element_values(es);
    lemma_element_values(all);
    assert(element_values(all) =~= element_values(es).push(v@)) by {
        assert forall|i: int| 0 <= i < all.len() implies element_values(all)[i] == element_values(
            es,
        ).push(v@)[i] by {
            assert(element_values(all)[i] == all[i]@);
            if i < es.len() {
                assert(element_values(es)[i] == es[i]@);
            }
        }
    }
}

/// One member more at the end.
proof fn lemma_member_push(ms: Seq<(Cow<str>, Value)>, m: (Cow<str>, Value))
    ensures
        member_values(ms.push(m)) == member_values(ms).push((m.0@, m.1@)),
{
    let all = ms.push(m);
    lemma_member_values(ms);
    lemma_member_values(all);
    assert(member_values(all) =~= member_values(ms).push((m.0@, m.1@))) by {
        assert forall|i: int| 0 <= i < all.len() implies member_values(all)[i] == member_values(
            ms,
        ).push((m.0@, m.1@))[i] by {
            assert(member_values(all)[i] == (all[i].0@, all[i].1@));
            if i < ms.len() {
                assert(member_values(ms)[i] == (ms[i].0@, ms[i].1@));
            }
        }
    }
}

impl<'a> Clone for Value<'a> {
    /// A copy of the whole tree: what is borrowed is borrowed by the copy, too.
    fn clone(&self) -> (r: Self)
        ensures
            r@ == self@,
            tree(r) == tree(*self),
        decreases self,
    {
        match self {
            Value::String(s) => Value::String(clone_cow(s)),
            Value::Number(s) => Value::Number(*s),
            Value::Bool(b) => Value::Bool(*b),
            Value::Null => Value::Null,
            Value::Object(ms) => {
                let mut copy: Vec<(Cow<'a, str>, Value<'a>)> = Vec::new();
                let mut i: usize = 0;
                assert(ms@.take(0) =~= Seq::empty());
                while i < ms.len()
                    invariant
                        i <= ms@.len(),
                        decreases_to!(self => ms@),
                        member_values(copy@) == member_values(ms@.take(i as int)),
                        member_trees(copy@) == member_trees(ms@.take(i as int)),
                    decreases ms@.len() - i,
                {
                    let key = clone_cow(&ms[i].0);
                    let value = (&ms[i].1).clone();
                    proof {
                        lemma_member_push(copy@, (key, value));
                        lemma_member_tree_push(copy@, (key, value));
                        lemma_member_push(ms@.take(i as int), ms@[i as int]);
                        lemma_member_tree_push(ms@.take(i as int), ms@[i as int]);
                        assert(ms@.take(i + 1) =~= ms@.take(i as int).push(ms@[i as int]));
                    }
                    copy.push((key, value));
                    i += 1;
                }
                assert(ms@.take(ms@.len() as int) =~= ms@);
                Value::Object(copy)
            },
            Value::Array(es) => {
                let mut copy: Vec<Value<'a>> = Vec::new();
                let mut i: usize = 0;
                assert(es@.take(0) =~= Seq::empty());
                while i < es.len()
                    invariant
                        i <= es@.len(),
                        decreases_to!(self => es@),
                        element_values(copy@) == element_values(es@.take(i as int)),
                        element_trees(copy@) == element_trees(es@.take(i as int)),
                    decreases es@.len() - i,
                {
                    let value = (&es[i]).clone();
                    proof {
                        lemma_element_push(copy@, value);
                        lemma_element_tree_push(copy@, value);
                        lemma_element_push(es@.take(i as int), es@[i as int]);
                        lemma_element_tree_push(es@.take(i as int), es@[i as int]);
                        assert(es@.take(i + 1) =~= es@.take(i as int).push(es@[i as int]));
                    }
                    copy.push(value);
                    i += 1;
                }
                assert(es@.take(es@.len() as int) =~= es@);
                Value::Array(copy)
            },
        }
    }
}

/// An object or an array of which the end has not come yet.
#[verifier::ext_equal]
pub enum OpenTree {
    /// With the key that waits for its value.
    Object(Text, Seq<(Text, Tree)>),
    Array(Seq<Tree>),
}

/// The key of an object before its first key has come.
pub open spec fn no_key() -> Text {
    Text { text: seq![], owned: false }
}

/// What a [`ValueWriter`] holds.
#[verifier::ext_equal]
pub struct Sketch {
    /// The containers that are still open, outermost first.
    pub open: Seq<OpenTree>,
    /// The top-level value.
    pub result: Option<Tree>,
}

impl Sketch {
    /// A value is complete: it goes into the innermost open container, or is the result.
    pub open spec fn add_value(self, v: Tree) -> Sketch {
        if self.open.len() == 0 {
            Sketch { result: Some(v), ..self }
        } else {
            let top = match self.open.last() {
                OpenTree::Object(key, ms) => OpenTree::Object(no_key(), ms.push((key, v))),
                OpenTree::Array(es) => OpenTree::Array(es.push(v)),
            };
            Sketch { open: self.open.drop_last().push(top), ..self }
        }
    }

    /// A key, which matters only in an object.
    pub open spec fn set_key(self, key: Text) -> Sketch {
        if self.open.len() == 0 {
            self
        } else {
            match self.open.last() {
                OpenTree::Object(_, ms) => Sketch {
                    open: self.open.drop_last().push(OpenTree::Object(key, ms)),
                    ..self
                },
                OpenTree::Array(_) => self,
            }
        }
    }

    /// A container starts.
    pub open spec fn start(self, c: OpenTree) -> Sketch {
        Sketch { open: self.open.push(c), ..self }
    }

    /// The innermost container ends; its value is complete if it is of the right kind.
    pub open spec fn end(self, is_object: bool) -> Sketch {
        if self.open.len() == 0 {
            self
        } else {
            let outer = Sketch { open: self.open.drop_last(), ..self };
            match self.open.last() {
                OpenTree::Object(_, ms) => if is_object {
                    outer.add_value(Tree::Object(ms))
                } else {
                    outer
                },
                OpenTree::Array(es) => if is_object {
                    outer
                } else {
                    outer.add_value(Tree::Array(es))
                },
            }
        }
    }

    /// What an event leads to.
    pub open spec fn after(self, e: Event) -> Sketch {
        match e {
            Event::Null => self.add_value(Tree::Null),
            Event::Bool(v) => self.add_value(Tree::Bool(v)),
            Event::Number(t) => self.add_value(Tree::Number(t)),
            Event::String(t) => self.add_value(Tree::String(Text { text: t, owned: false })),
            Event::EscapedString(raw) => self.add_value(
                Tree::String(Text { text: unescape::unescape(raw), owned: true }),
            ),
            Event::Key(t) => self.set_key(Text { text: t, owned: false }),
            Event::EscapedKey(raw) => self.set_key(
                Text { text: unescape::unescape(raw), owned: true },
            ),
            Event::StartObject => self.start(OpenTree::Object(no_key(), seq![])),
            Event::EndObject => self.end(true),
            Event::StartArray => self.start(OpenTree::Array(seq![])),
            Event::EndArray => self.end(false),
        }
    }

    /// What the events `es` lead to, one after the other.
    pub open spec fn after_all(self, es: Seq<Event>) -> Sketch
        decreases es.len(),
    {
        if es.len() == 0 {
            self
        } else {
            self.after_all(es.drop_last()).after(es.last())
        }
    }
}

/// A partially built object or array.
enum Frame<'a> {
    Obj { key: Cow<'a, str>, members: Vec<(Cow<'a, str>, Value<'a>)> },
    Arr { elements: Vec<Value<'a>> },
}

spec fn frame_tree(f: Frame) -> OpenTree {
    match f {
        Frame::Obj { key, members } => OpenTree::Object(cow_text(key), member_trees(members@)),
        Frame::Arr { elements } => OpenTree::Array(element_trees(elements@)),
    }
}

/// Builds a [`Value`] from the events of a parse.
pub struct ValueWriter<'a> {
    frames: Vec<Frame<'a>>,
    result: Option<Value<'a>>,
}

impl<'a> View for ValueWriter<'a> {
    type V = Sketch;

    closed spec fn view(&self) -> Sketch {
        Sketch {
            open: Seq::new(self.frames@.len(), |i: int| frame_tree(self.frames@[i])),
            result: match self.result {
                Some(v) => Some(tree(v)),
                None => None,
            },
        }
    }
}

impl<'a> ValueWriter<'a> {
    /// An empty writer.
    pub fn new() -> (r: Self)
        ensures
            r.wf(),
            r@ == (Sketch { open: seq![], result: None }),
    {
        let r = ValueWriter { frames: Vec::new(), result: None };
        assert(r@ =~= Sketch { open: seq![], result: None });
        r
    }

    /// Puts a complete value into the innermost open container, or makes it the result.
    fn push_value(&mut self, val: Value<'a>)
        ensures
            final(self)@ == old(self)@.add_value(tree(val)),
    {
        let ghost open = self@.open;
        match self.frames.pop() {
            Some(Frame::Arr { elements }) => {
                let mut elements = elements;
                proof {
                    lemma_element_tree_push(elements@, val);
                }
                elements.push(val);
                self.frames.push(Frame::Arr { elements });
            },
            Some(Frame::Obj { key, members }) => {
                let mut members = members;
                proof {
                    lemma_member_tree_push(members@, (key, val));
                    reveal_strlit("");
                }
                members.push((key, val));
                let key: Cow<'a, str> = Cow::Borrowed("");
                assert(cow_text(key) =~= no_key());
                self.frames.push(Frame::Obj { key, members });
            },
            None => {
                self.result = Some(val);
            },
        }
        assert(self@ =~= old(self)@.add_value(tree(val)));
    }

    /// Notes the key of the next member, if the innermost open container is an object.
    fn set_key(&mut self, key: Cow<'a, str>)
        ensures
            final(self)@ == old(self)@.set_key(cow_text(key)),
    {
        match self.frames.pop() {
            Some(Frame::Obj { key: _, members }) => {
                self.frames.push(Frame::Obj { key, members });
            },
            Some(frame) => {
                self.frames.push(frame);
            },
            None => {},
        }
        assert(self@ =~= old(self)@.set_key(cow_text(key)));
    }
}

impl<'a> Sax<'a> for ValueWriter<'a> {
    type Output = Value<'a>;

    open spec fn wf(&self) -> bool {
        true
    }

    open spec fn steps(pre: Self, event: Event, post: Self) -> bool {
        post@ == pre@.after(event)
    }

    open spec fn finishes(self, out: Option<Value<'a>>) -> bool {
        match out {
            Some(v) => self@.open.len() == 0 && self@.result == Some(tree(v)),
            None => self@.open.len() > 0 || self@.result is None,
        }
    }

    fn null(&mut self) {
        self.push_value(Value::Null);
    }

    fn bool_val(&mut self, v: bool) {
        self.push_value(Value::Bool(v));
    }

    fn number(&mut self, s: &'a str) {
        self.push_value(Value::Number(s));
    }

    fn string(&mut self, s: &'a str) {
        self.push_value(Value::String(Cow::Borrowed(s)));
    }

    fn escaped_string(&mut self, s: &str) {
        let mut text = std::string::String::new();
        unescape_str(s, &mut text);
        self.push_value(Value::String(Cow::Owned(text)));
    }

    fn key(&mut self, s: &'a str) {
        self.set_key(Cow::Borrowed(s));
    }

    fn escaped_key(&mut self, s: &str) {
        let mut text = std::string::String::new();
        unescape_str(s, &mut text);
        self.set_key(Cow::Owned(text));
    }

    fn start_object(&mut self) {
        let key: Cow<'a, str> = Cow::Borrowed("");
        proof {
            reveal_strlit("");
            assert(cow_text(key) =~= no_key());
        }
        self.frames.push(Frame::Obj { key, members: Vec::new() });
        assert(self@ =~= old(self)@.after(Event::StartObject));
    }

    fn end_object(&mut self) {
        if let Some(frame) = self.frames.pop() {
            let ghost outer = Sketch { open: old(self)@.open.drop_last(), ..old(self)@ };
            assert(self@ =~= outer);
            if let Frame::Obj { key: _, members } = frame {
                self.push_value(Value::Object(members));
            }
        }
    }

    fn start_array(&mut self) {
        self.frames.push(Frame::Arr { elements: Vec::new() });
        assert(self@ =~= old(self)@.after(Event::StartArray));
    }

    fn end_array(&mut self) {
        if let Some(frame) = self.frames.pop() {
            let ghost outer = Sketch { open: old(self)@.open.drop_last(), ..old(self)@ };
            assert(self@ =~= outer);
            if let Frame::Arr { elements } = frame {
                self.push_value(Value::Array(elements));
            }
        }
    }

    fn finish(self) -> (out: Option<Value<'a>>) {
        if self.frames.is_empty() {
            self.result
        } else {
            None
        }
    }
}

/// Events in two parts lead to the same as one part after the other.
proof fn lemma_after_concat(d: Sketch, x: Seq<Event>, y: Seq<Event>)
    ensures
        d.after_all(x + y) == d.after_all(x).after_all(y),
    decreases y.len(),
{
    if y.len() == 0 {
        assert(x + y =~= x);
    } else {
        let z = x + y;
        assert(z.drop_last() =~= x + y.drop_last());
        assert(z.last() == y.last());
        lemma_after_concat(d, x, y.drop_last());
    }
}

/// A single event leads one step on.
proof fn lemma_after_one(d: Sketch, e: Event)
    ensures
        d.after_all(seq![e]) == d.after(e),
{
    assert(seq![e].drop_last() =~= seq![]);
    assert(d.after_all(seq![]) == d);
    assert(seq![e].last() == e);
}

/// The events of `n` add the tree of `n`.
proof fn lemma_sketch_node(d: Sketch, n: Node)
    ensures
        d.after_all(grammar::events(n)) == d.add_value(node_tree(n)),
    decreases n,
{
    match n {
        Node::Object(ms) => {
            let mid = grammar::member_events(ms);
            lemma_after_one(d, Event::StartObject);
            lemma_after_concat(d, seq![Event::StartObject], mid);
            lemma_sketch_members(d, seq![], ms);
            lemma_after_concat(d, seq![Event::StartObject] + mid, seq![Event::EndObject]);
            let all = seq![] + node_member_trees(ms);
            assert(all =~= node_member_trees(ms));
            let d2 = d.start(OpenTree::Object(no_key(), all));
            lemma_after_one(d2, Event::EndObject);
            assert(d2.open.drop_last() =~= d.open);
        },
        Node::Array(es) => {
            let mid = grammar::element_events(es);
            lemma_after_one(d, Event::StartArray);
            lemma_after_concat(d, seq![Event::StartArray], mid);
            lemma_sketch_elements(d, seq![], es);
            lemma_after_concat(d, seq![Event::StartArray] + mid, seq![Event::EndArray]);
            let all = seq![] + node_element_trees(es);
            assert(all =~= node_element_trees(es));
            let d2 = d.start(OpenTree::Array(all));
            lemma_after_one(d2, Event::EndArray);
            assert(d2.open.drop_last() =~= d.open);
        },
        _ => {
            let e = grammar::events(n)[0];
            assert(grammar::events(n) =~= seq![e]);
            lemma_after_one(d, e);
        },
    }
}

proof fn lemma_sketch_members(
    d: Sketch,
    before: Seq<(Text, Tree)>,
    ms: Seq<(Seq<char>, Node)>,
)
    ensures
        d.start(OpenTree::Object(no_key(), before)).after_all(grammar::member_events(ms)) == d.start(
            OpenTree::Object(no_key(), before + node_member_trees(ms)),
        ),
    decreases ms,
{
    let d0 = d.start(OpenTree::Object(no_key(), before));
    if ms.len() == 0 {
        assert(before + seq![] =~= before);
    } else {
        let raw = ms[0].0;
        let key = raw_text(raw);
        let e = grammar::key_event(raw);
        let v = node_tree(ms[0].1);
        lemma_after_one(d0, e);
        let d1 = d.start(OpenTree::Object(key, before));
        assert(d0.after(e) =~= d1) by {
            assert(d0.open.drop_last() =~= d.open);
        }
        lemma_sketch_node(d1, ms[0].1);
        let d2 = d.start(OpenTree::Object(no_key(), before.push((key, v))));
        assert(d1.add_value(v) =~= d2) by {
            assert(d1.open.drop_last() =~= d.open);
        }
        lemma_sketch_members(d, before.push((key, v)), ms.drop_first());
        lemma_after_concat(d0, seq![e], grammar::events(ms[0].1));
        lemma_after_concat(
            d0,
            seq![e] + grammar::events(ms[0].1),
            grammar::member_events(ms.drop_first()),
        );
        assert(before.push((key, v)) + node_member_trees(ms.drop_first()) =~= before
            + node_member_trees(ms));
    }
}

proof fn lemma_sketch_elements(d: Sketch, before: Seq<Tree>, es: Seq<Node>)
    ensures
        d.start(OpenTree::Array(before)).after_all(grammar::element_events(es)) == d.start(
            OpenTree::Array(before + node_element_trees(es)),
        ),
    decreases es,
{
    let d0 = d.start(OpenTree::Array(before));
    if es.len() == 0 {
        assert(before + seq![] =~= before);
    } else {
        let v = node_tree(es[0]);
        lemma_sketch_node(d0, es[0]);
        let d1 = d.start(OpenTree::Array(before.push(v)));
        assert(d0.add_value(v) =~= d1) by {
            assert(d0.open.drop_last() =~= d.open);
        }
        lemma_sketch_elements(d, before.push(v), es.drop_first());
        lemma_after_concat(
            d0,
            grammar::events(es[0]),
            grammar::element_events(es.drop_first()),
        );
        assert(before.push(v) + node_element_trees(es.drop_first()) =~= before
            + node_element_trees(es));
    }
}

/// A value writer that has taken the events `es` holds what they lead to.
proof fn lemma_reaches_sketch<'a>(w0: ValueWriter<'a>, es: Seq<Event>, w: ValueWriter<'a>)
    requires
        sax::reaches(w0, es, w),
    ensures
        w@ == w0@.after_all(es),
    decreases es.len(),
{
    if es.len() > 0 {
        let m = choose|m: ValueWriter<'a>|
            sax::reaches(w0, es.drop_last(), m) && #[trigger] ValueWriter::steps(m, es.last(), w);
        lemma_reaches_sketch(w0, es.drop_last(), m);
    }
}

/// Parses `src` into a tree.
///
/// Returns `None` if the input is not valid JSON or nests deeper than
/// [`crate::MAX_JSON_DEPTH`].  Text without escape sequences borrows from `src`.
pub fn parse_json<'a>(src: &'a str) -> (r: Option<Value<'a>>)
    ensures
        match grammar::document(encode_utf8(src@)) {
            Some(n) => {
                &&& r matches Some(v)
                &&& v@ == json::json(n)
                &&& tree(v) == node_tree(n)
            },
            None => r is None,
        },
{
    let writer = ValueWriter::new();
    let ghost w0 = writer;
    let r = parse_with(src, writer);
    proof {
        if let Some(n) = grammar::document(encode_utf8(src@)) {
            let es = grammar::events(n);
            let w = choose|w: ValueWriter<'a>| sax::reaches(w0, es, w) && #[trigger] w.finishes(r);
            lemma_reaches_sketch(w0, es, w);
            lemma_sketch_node(w0@, n);
            lemma_tree_json(r->0, n);
        }
    }
    r
}

/// The first member with a key is the one at the first index where the key stands.
proof fn lemma_lookup(ms: Seq<(Seq<char>, Json)>, key: Seq<char>, i: int)
    requires
        0 <= i <= ms.len(),
        forall|k: int| 0 <= k < i ==> (#[trigger] ms[k]).0 != key,
        i < ms.len() ==> ms[i].0 == key,
    ensures
        json::lookup(ms, key) == (if i < ms.len() {
            Some(ms[i].1)
        } else {
            None
        }),
    decreases ms.len(),
{
    if i > 0 {
        let tail = ms.drop_first();
        assert(ms[0].0 != key);
        assert forall|k: int| 0 <= k < i - 1 implies (#[trigger] tail[k]).0 != key by {
            assert(tail[k] == ms[k + 1]);
        }
        lemma_lookup(tail, key, i - 1);
    }
}

impl<'a> JsonRef<'a> for &'a Value<'a> {
    type Item = Self;

    open spec fn wf(self) -> bool {
        true
    }

    open spec fn json(self) -> Option<Json> {
        Some(self@)
    }

    open spec fn item_wf(item: Self) -> bool {
        item.wf()
    }

    open spec fn item_json(item: Self) -> Option<Json> {
        item.json()
    }

    open spec fn is_member(self, key: Seq<char>, item: Self) -> bool {
        &&& *self matches Value::Object(ms)
        &&& exists|k: int|
            {
                &&& 0 <= k < ms@.len()
                &&& (#[trigger] ms@[k]).0@ == key
                &&& forall|j: int| 0 <= j < k ==> (#[trigger] ms@[j]).0@ != key
                &&& *item == ms@[k].1
            }
    }

    open spec fn is_element(self, i: int, item: Self) -> bool {
        &&& *self matches Value::Array(es)
        &&& 0 <= i < es@.len()
        &&& *item == es@[i]
    }

    fn is_array(self) -> bool {
        matches!(self, Value::Array(_))
    }

    fn is_object(self) -> bool {
        matches!(self, Value::Object(_))
    }

    fn as_null(self) -> Option<()> {
        match self {
            Value::Null => Some(()),
            _ => None,
        }
    }

    fn as_bool(self) -> Option<bool> {
        match self {
            Value::Bool(b) => Some(*b),
            _ => None,
        }
    }

    fn as_number_str(self) -> Option<&'a str> {
        match self {
            Value::Number(s) => Some(*s),
            _ => None,
        }
    }

    fn as_str(self) -> Option<&'a str> {
        match self {
            Value::String(s) => Some(cow_str(s)),
            _ => None,
        }
    }

    fn get(self, key: &str) -> Option<Self> {
        match self {
            Value::Object(ms) => {
                proof {
                    lemma_member_values(ms@);
                }
                let mut i: usize = 0;
                while i < ms.len()
                    invariant
                        i <= ms@.len(),
                        self@ == Json::Object(member_values(ms@)),
                        member_values(ms@).len() == ms@.len(),
                        forall|k: int|
                            0 <= k < ms@.len() ==> #[trigger] member_values(ms@)[k] == (
                                ms@[k].0@,
                                ms@[k].1@,
                            ),
                        *self == Value::Object(*ms),
                        forall|k: int| 0 <= k < i ==> (#[trigger] member_values(ms@)[k]).0 != key@,
                        forall|k: int| 0 <= k < i ==> (#[trigger] ms@[k]).0@ != key@,
                    decreases ms@.len() - i,
                {
                    assert(member_values(ms@)[i as int] == (ms@[i as int].0@, ms@[i as int].1@));
                    if same_text(cow_str(&ms[i].0), key) {
                        proof {
                            lemma_lookup(member_values(ms@), key@, i as int);
                        }
                        return Some(&ms[i].1);
                    }
                    i += 1;
                }
                proof {
                    lemma_lookup(member_values(ms@), key@, ms@.len() as int);
                }
                None
            },
            _ => None,
        }
    }

    fn index_at(self, i: usize) -> Option<Self> {
        match self {
            Value::Array(es) => {
                proof {
                    lemma_element_values(es@);
                }
                if i < es.len() {
                    assert(element_values(es@)[i as int] == es@[i as int]@);
                    Some(&es[i])
                } else {
                    None
                }
            },
            _ => None,
        }
    }

    fn len(self) -> Option<usize> {
        match self {
            Value::Array(es) => {
                proof {
                    lemma_element_values(es@);
                }
                Some(es.len())
            },
            Value::Object(ms) => {
                proof {
                    lemma_member_values(ms@);
                }
                Some(ms.len())
            },
            _ => None,
        }
    }
}

}
