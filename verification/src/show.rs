//! The text by which a tape entry is shown to a developer.
use vstd::prelude::*;
use vstd::string::*;

use crate::tape::{Entry, TapeEntry, TapeEntryKind};

verus! {

/// The formatter of std, which collects the text that values are shown by.
#[verifier::external_type_specification]
#[verifier::external_body]
pub struct ExFormatter<'a>(std::fmt::Formatter<'a>);

/// The error of std's formatting functions: the text could not be taken.
#[verifier::external_type_specification]
#[verifier::external_body]
pub struct ExFormatError(std::fmt::Error);

/// What the `Debug` impl of `str` writes for the text `t`: `t` in quotes, with escape
/// sequences for quotes, backslashes and characters that cannot be printed.
pub uninterp spec fn quoted(t: Seq<char>) -> Seq<char>;

/// `std::fmt::format` of std with `{:?}` and a `str`: the result is a function of the text.
#[verifier::external_body]
fn quote(s: &str) -> (r: String)
    ensures
        r@ == quoted(s@),
{
    format!("{:?}", s)
}

/// `Formatter::write_str` of std: hands the text to what the formatter writes to.  It is
/// called with the text of the entry `_e` only.  Whether that takes the text is its own
/// affair, so nothing is said of the result.
#[verifier::external_body]
fn write_shown(f: &mut std::fmt::Formatter<'_>, _e: &TapeEntry<'_>, text: &str) -> (r: Result<
    (),
    std::fmt::Error,
>)
    requires
        text@ == shown(_e@),
{
    f.write_str(text)
}

/// The number `n` in decimal digits.
pub open spec fn decimal(n: nat) -> Seq<char>
    decreases n,
{
    if n < 10 {
        seq![('0' as int + n) as char]
    } else {
        decimal(n / 10).push(('0' as int + n % 10) as char)
    }
}

/// The name `name` with `content` in brackets behind it.
pub open spec fn bracketed(name: Seq<char>, content: Seq<char>) -> Seq<char> {
    name + "("@ + content + ")"@
}

/// The text by which an entry is shown: its kind, and in brackets what it holds.
pub open spec fn shown(e: Entry) -> Seq<char> {
    match e {
        Entry::Null => "Null"@,
        Entry::Bool(v) => bracketed(
            "Bool"@,
            if v {
                "true"@
            } else {
                "false"@
            },
        ),
        Entry::Number(t) => bracketed("Number"@, quoted(t)),
        Entry::String(t) => bracketed("String"@, quoted(t)),
        Entry::EscapedString(t) => bracketed("EscapedString"@, quoted(t)),
        Entry::Key(t) => bracketed("Key"@, quoted(t)),
        Entry::EscapedKey(t) => bracketed("EscapedKey"@, quoted(t)),
        Entry::StartObject(end) => bracketed("StartObject"@, decimal(end as nat)),
        Entry::EndObject => "EndObject"@,
        Entry::StartArray(end) => bracketed("StartArray"@, decimal(end as nat)),
        Entry::EndArray => "EndArray"@,
    }
}

/// Appends the number `n` in decimal digits.
fn push_decimal(out: &mut String, n: usize)
    ensures
        final(out)@ == old(out)@ + decimal(n as nat),
    decreases n,
{
    if n >= 10 {
        push_decimal(out, n / 10);
    }
    let ghost before = out@;
    let digit: u8 = (n % 10) as u8;
    let c = (0x30u8 + digit) as char;
    out.push(c);
    proof {
        if n >= 10 {
            assert(old(out)@ + decimal((n / 10) as nat).push(c) =~= before.push(c));
        } else {
            assert(old(out)@ + seq![c] =~= before.push(c));
        }
    }
}

/// The name `name` with `content` in brackets behind it.
pub fn in_brackets(name: &str, content: &str) -> (r: String)
    ensures
        r@ == bracketed(name@, content@),
{
    let mut out = String::new();
    out.append(name);
    out.append("(");
    out.append(content);
    out.append(")");
    assert(out@ =~= bracketed(name@, content@));
    out
}

/// The name `name` with the number `n` in brackets behind it.
pub fn numbered(name: &str, n: usize) -> (r: String)
    ensures
        r@ == bracketed(name@, decimal(n as nat)),
{
    let mut digits = String::new();
    push_decimal(&mut digits, n);
    assert(digits@ =~= decimal(n as nat));
    in_brackets(name, digits.as_str())
}

impl<'a> TapeEntry<'a> {
    /// The text by which the entry is shown, such as `Null`, `Bool(true)`, `String("hi")` or
    /// `StartArray(3)`.
    pub fn debug_text(&self) -> (r: String)
        ensures
            r@ == shown(self@),
    {
        match self.kind() {
            TapeEntryKind::Null => "Null".to_owned(),
            TapeEntryKind::Bool => in_brackets(
                "Bool",
                if self.as_bool().unwrap() {
                    "true"
                } else {
                    "false"
                },
            ),
            TapeEntryKind::Number => in_brackets("Number", quote(self.as_number().unwrap()).as_str()),
            TapeEntryKind::String => in_brackets("String", quote(self.as_string().unwrap()).as_str()),
            TapeEntryKind::EscapedString => in_brackets(
                "EscapedString",
                quote(self.as_string().unwrap()).as_str(),
            ),
            TapeEntryKind::Key => in_brackets("Key", quote(self.as_key().unwrap()).as_str()),
            TapeEntryKind::EscapedKey => in_brackets(
                "EscapedKey",
                quote(self.as_key().unwrap()).as_str(),
            ),
            TapeEntryKind::StartObject => numbered("StartObject", self.as_start_object().unwrap()),
            TapeEntryKind::EndObject => "EndObject".to_owned(),
            TapeEntryKind::StartArray => numbered("StartArray", self.as_start_array().unwrap()),
            TapeEntryKind::EndArray => "EndArray".to_owned(),
        }
    }
}

impl<'a> std::fmt::Debug for TapeEntry<'a> {
    /// Hands the text of the entry, see [`TapeEntry::debug_text`], to the formatter.
    fn fmt(&self, f: &mut std::fmt::Formatter<'_>) -> (r: Result<(), std::fmt::Error>) {
        write_shown(f, self, self.debug_text().as_str())
    }
}

/// How each entry is shown.
pub proof fn law_shown(t: Seq<char>, n: nat)
    ensures
        shown(Entry::Null) == "Null"@,
        shown(Entry::Bool(true)) == "Bool"@ + "("@ + "true"@ + ")"@,
        shown(Entry::Bool(false)) == "Bool"@ + "("@ + "false"@ + ")"@,
        shown(Entry::Number(t)) == "Number"@ + "("@ + quoted(t) + ")"@,
        shown(Entry::String(t)) == "String"@ + "("@ + quoted(t) + ")"@,
        shown(Entry::EscapedString(t)) == "EscapedString"@ + "("@ + quoted(t) + ")"@,
        shown(Entry::Key(t)) == "Key"@ + "("@ + quoted(t) + ")"@,
        shown(Entry::EscapedKey(t)) == "EscapedKey"@ + "("@ + quoted(t) + ")"@,
        shown(Entry::StartObject(n as int)) == "StartObject"@ + "("@ + decimal(n) + ")"@,
        shown(Entry::StartArray(n as int)) == "StartArray"@ + "("@ + decimal(n) + ")"@,
        shown(Entry::EndObject) == "EndObject"@,
        shown(Entry::EndArray) == "EndArray"@,
{
}

}
