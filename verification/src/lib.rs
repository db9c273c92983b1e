//! A JSON parser that classifies 64 bytes at a time with SIMD-within-a-register bit
//! tricks, and writes a flat tape of tokens, a tree of values, or the events of your own
//! writer.

pub mod access_laws;
pub mod capacity;
pub mod classify;
pub mod cursor;
pub mod de;
pub mod document_laws;
pub mod dom;
pub mod escape_laws;
pub mod grammar;
pub mod json;
pub mod json_ref;
pub mod laws;
pub mod machine;
pub mod number;
pub mod number_laws;
pub mod parse;
pub mod sax;
pub mod show;
pub mod spelling;
pub mod stats;
pub mod tape;
mod text;
pub mod unescape;
pub mod value;

pub use classify::{classify_u64, ByteState};
pub use cursor::{TapeArrayIter, TapeObjectIter, TapeRef};
pub use dom::parse_to_dom;
pub use grammar::MAX_JSON_DEPTH;
pub use json_ref::JsonRef;
pub use number::is_valid_json_number;
pub use parse::{parse_with, parse_with_stats};
pub use sax::Sax;
pub use tape::{Tape, TapeEntry, TapeEntryKind, TapeWriter};
pub use unescape::unescape_str;
pub use value::{parse_json, Value, ValueWriter};

pub use cursor::{
    TapeArrayIter as DomArrayIter, TapeObjectIter as DomObjectIter, TapeRef as DomRef,
};
pub use tape::{Tape as Dom, TapeEntry as DomEntry, TapeEntryKind as DomEntryKind};
