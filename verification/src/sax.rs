//! The event sink that a parse writes to.
use vstd::prelude::*;

use crate::grammar::Event;

verus! {

/// Receives a stream of structural events as the parser walks the input.
///
/// Implement this trait to produce any output from a single pass over the JSON
/// source, and drive the implementation with [`crate::parse_with`].
///
/// What an implementation does with an event is its own affair: it says so in `steps` and
/// `finishes`, or says nothing, and `parse_with` says which events it gets.
pub trait Sax<'src>: Sized {
    /// The type returned by [`finish`](Sax::finish).
    type Output;

    /// The writer can take events.
    open spec fn wf(&self) -> bool {
        true
    }

    /// Taking `event` may lead from `pre` to `post`.
    open spec fn steps(pre: Self, event: Event, post: Self) -> bool {
        true
    }

    /// The writer may be finished.  [`crate::parse_with`] relies on this behind the last
    /// event of a document, and finishes a writer nowhere else.
    open spec fn may_finish(self) -> bool {
        true
    }

    /// Finishing here may return `out`.
    open spec fn finishes(self, out: Option<Self::Output>) -> bool {
        true
    }

    /// A `null` literal was parsed.
    fn null(&mut self)
        requires
            old(self).wf(),
        ensures
            final(self).wf(),
            Self::steps(*old(self), Event::Null, *final(self)),
    ;

    /// A `true` or `false` literal was parsed.
    fn bool_val(&mut self, v: bool)
        requires
            old(self).wf(),
        ensures
            final(self).wf(),
            Self::steps(*old(self), Event::Bool(v), *final(self)),
    ;

    /// A JSON number; `s` is a slice of the original source string.
    fn number(&mut self, s: &'src str)
        requires
            old(self).wf(),
        ensures
            final(self).wf(),
            Self::steps(*old(self), Event::Number(s@), *final(self)),
    ;

    /// A JSON string value with no escape sequences; `s` borrows from the source.
    fn string(&mut self, s: &'src str)
        requires
            old(self).wf(),
        ensures
            final(self).wf(),
            Self::steps(*old(self), Event::String(s@), *final(self)),
    ;

    /// A JSON string value with escape sequences; `s` is the text between the quotes
    /// as it stands in the source.  [`crate::unescape_str`] decodes it.
    fn escaped_string(&mut self, s: &str)
        requires
            old(self).wf(),
        ensures
            final(self).wf(),
            Self::steps(*old(self), Event::EscapedString(s@), *final(self)),
    ;

    /// An object key with no escape sequences; `s` borrows from the source.
    fn key(&mut self, s: &'src str)
        requires
            old(self).wf(),
        ensures
            final(self).wf(),
            Self::steps(*old(self), Event::Key(s@), *final(self)),
    ;

    /// An object key with escape sequences; `s` is the text between the quotes as it
    /// stands in the source.  [`crate::unescape_str`] decodes it.
    fn escaped_key(&mut self, s: &str)
        requires
            old(self).wf(),
        ensures
            final(self).wf(),
            Self::steps(*old(self), Event::EscapedKey(s@), *final(self)),
    ;

    /// Opening `{` of an object.
    fn start_object(&mut self)
        requires
            old(self).wf(),
        ensures
            final(self).wf(),
            Self::steps(*old(self), Event::StartObject, *final(self)),
    ;

    /// Closing `}` of an object.
    fn end_object(&mut self)
        requires
            old(self).wf(),
        ensures
            final(self).wf(),
            Self::steps(*old(self), Event::EndObject, *final(self)),
    ;

    /// Opening `[` of an array.
    fn start_array(&mut self)
        requires
            old(self).wf(),
        ensures
            final(self).wf(),
            Self::steps(*old(self), Event::StartArray, *final(self)),
    ;

    /// Closing `]` of an array.
    fn end_array(&mut self)
        requires
            old(self).wf(),
        ensures
            final(self).wf(),
            Self::steps(*old(self), Event::EndArray, *final(self)),
    ;

    /// Called once after the last token; returns the final output or `None` on
    /// internal error.  Not called if the source is not a JSON document.
    fn finish(self) -> (out: Option<Self::Output>)
        requires
            self.wf(),
            self.may_finish(),
        ensures
            self.finishes(out),
    ;
}

/// Taking the events `es` one after the other may lead from `w0` to `w`.
pub open spec fn reaches<'src, W: Sax<'src>>(w0: W, es: Seq<Event>, w: W) -> bool
    decreases es.len(),
{
    if es.len() == 0 {
        w == w0
    } else {
        exists|m: W|
            reaches(w0, es.drop_last(), m) && #[trigger] W::steps(m, es.last(), w)
    }
}

/// One event more is one step more.
pub proof fn lemma_reaches_push<'src, W: Sax<'src>>(w0: W, es: Seq<Event>, m: W, e: Event, w: W)
    requires
        reaches(w0, es, m),
        W::steps(m, e, w),
    ensures
        reaches(w0, es.push(e), w),
{
    assert(es.push(e).drop_last() =~= es);
    assert(W::steps(m, es.push(e).last(), w));
}

}
