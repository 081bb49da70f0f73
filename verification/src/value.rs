//! JSON values, and what their canonical encoding is.

use vstd::prelude::*;
use vstd::utf8::encode_utf8;
use crate::compact::{bool_bytes, decimal, null_bytes, separator};
use crate::escape::CharEscape;
use crate::normalize::nfc;
use crate::state::members_bytes;

verus! {

/// A JSON number. A floating-point number is known only as such: no
/// canonical encoding holds one.
#[derive(Clone, Copy, Debug, PartialEq, Eq)]
pub enum Number {
    /// An integer that is not negative.
    PosInt(u64),
    /// A negative integer.
    NegInt(i64),
    /// A number with a fraction or an exponent.
    Float,
}

/// A JSON value.
#[derive(Debug, PartialEq, Eq)]
pub enum JsonValue {
    Null,
    Bool(bool),
    Number(Number),
    String(String),
    Array(Vec<JsonValue>),
    /// The members of an object, in the order in which they are to be visited.
    Object(Vec<Field>),
}

/// A member of an object: its name and its value.
#[derive(Debug, PartialEq, Eq)]
pub struct Field {
    pub name: String,
    pub value: JsonValue,
}

/// A JSON value as a mathematical tree.
pub enum Json {
    Null,
    Bool(bool),
    Int(int),
    Float,
    Text(Seq<char>),
    List(Seq<Json>),
    /// The members of an object, in the order in which they are to be visited.
    Dict(Seq<Pair>),
}

/// A member of an object as a pair of name and value.
pub struct Pair {
    pub name: Seq<char>,
    pub value: Json,
}

impl View for Number {
    type V = Json;

    open spec fn view(&self) -> Json {
        match self {
            Number::PosInt(n) => Json::Int(*n as int),
            Number::NegInt(n) => Json::Int(*n as int),
            Number::Float => Json::Float,
        }
    }
}

impl View for JsonValue {
    type V = Json;

    open spec fn view(&self) -> Json
        decreases self,
    {
        match self {
            JsonValue::Null => Json::Null,
            JsonValue::Bool(b) => Json::Bool(*b),
            JsonValue::Number(n) => n@,
            JsonValue::String(s) => Json::Text(s@),
            JsonValue::Array(items) => Json::List(
                Seq::new(
                    items.len() as nat,
                    |i: int|
                        if 0 <= i < items.len() {
                            items[i]@
                        } else {
                            Json::Null
                        },
                ),
            ),
            JsonValue::Object(members) => Json::Dict(
                Seq::new(
                    members.len() as nat,
                    |i: int|
                        if 0 <= i < members.len() {
                            Pair { name: members[i].name@, value: members[i].value@ }
                        } else {
                            Pair { name: Seq::empty(), value: Json::Null }
                        },
                ),
            ),
        }
    }
}

/// The escape that the character with number `code` calls for in a string:
/// the quote, the backslash and the control characters below U+0020 call
/// for one, the others for none.
pub open spec fn escape_of_code(code: u32) -> Option<CharEscape> {
    if code == 0x22 {
        Some(CharEscape::Quote)
    } else if code == 0x5c {
        Some(CharEscape::ReverseSolidus)
    } else if code == 0x08 {
        Some(CharEscape::Backspace)
    } else if code == 0x09 {
        Some(CharEscape::Tab)
    } else if code == 0x0a {
        Some(CharEscape::LineFeed)
    } else if code == 0x0c {
        Some(CharEscape::FormFeed)
    } else if code == 0x0d {
        Some(CharEscape::CarriageReturn)
    } else if code < 0x20 {
        Some(CharEscape::AsciiControl(code as u8))
    } else {
        None
    }
}

/// The escape that a character of a string calls for.
pub open spec fn escape_of(c: char) -> Option<CharEscape> {
    escape_of_code(c as u32)
}

/// No character of `text` calls for an escape.
pub open spec fn escape_free(text: Seq<char>) -> bool {
    forall|i: int| 0 <= i < text.len() ==> escape_of(#[trigger] text[i]) is None
}

/// A run of characters between two escapes: its Normalization Form C in
/// UTF-8. An empty run is not written at all.
pub open spec fn run_bytes(run: Seq<char>) -> Seq<u8> {
    if run.len() == 0 {
        Seq::empty()
    } else {
        encode_utf8(nfc(run))
    }
}

/// The length of the run that `text` begins with: the number of characters
/// before the first one that calls for an escape.
pub open spec fn run_length(text: Seq<char>) -> nat
    decreases text.len(),
{
    if text.len() == 0 || escape_of(text[0]) is Some {
        0
    } else {
        1 + run_length(text.drop_first())
    }
}

/// The text of a string: the run that it begins with, the escape of the
/// character that ends the run, and what follows that character in the
/// same way. Each run is normalized by itself.
pub open spec fn text_bytes(text: Seq<char>) -> Seq<u8>
    decreases text.len(),
{
    let n = run_length(text) as int;
    if n >= text.len() {
        run_bytes(text)
    } else {
        run_bytes(text.take(n)) + escape_of(text[n])->Some_0.bytes() + text_bytes(
            text.skip(n + 1),
        )
    }
}

/// A string: its text between quotes.
pub open spec fn string_bytes(text: Seq<char>) -> Seq<u8> {
    seq![34u8] + text_bytes(text) + seq![34u8]
}

/// The value holds a floating-point number somewhere.
pub open spec fn has_float(json: Json) -> bool
    decreases json,
{
    match json {
        Json::Float => true,
        Json::List(items) => exists|i: int| 0 <= i < items.len() && has_float(#[trigger] items[i]),
        Json::Dict(members) => exists|i: int|
            0 <= i < members.len() && has_float((#[trigger] members[i]).value),
        _ => false,
    }
}

/// The canonical encoding of a value that holds no floating-point number.
pub open spec fn canonical(json: Json) -> Seq<u8>
    decreases json, 0nat,
{
    match json {
        Json::Null => null_bytes(),
        Json::Bool(b) => bool_bytes(b),
        Json::Int(n) => decimal(n),
        Json::Float => Seq::empty(),
        Json::Text(text) => string_bytes(text),
        Json::List(items) => seq![91u8] + list_bytes(items, items.len()) + seq![93u8],
        Json::Dict(members) => seq![123u8] + members_bytes(dict_members(members, members.len()))
            + seq![125u8],
    }
}

/// The first `n` values of an array, with commas between them.
pub open spec fn list_bytes(items: Seq<Json>, n: nat) -> Seq<u8>
    decreases items, n,
{
    if n == 0 || n > items.len() {
        Seq::empty()
    } else {
        list_bytes(items, (n - 1) as nat) + separator(n == 1) + canonical(items[n - 1])
    }
}

/// The first `n` members of an object as a map from encoded key to encoded
/// value. Of two members with the same encoded key the later one stays.
pub open spec fn dict_members(members: Seq<Pair>, n: nat) -> Map<Seq<u8>, Seq<u8>>
    decreases members, n,
{
    if n == 0 || n > members.len() {
        Map::empty()
    } else {
        dict_members(members, (n - 1) as nat).insert(
            string_bytes(members[n - 1].name),
            canonical(members[n - 1].value),
        )
    }
}

/// The run that a text begins with ends before the first character that
/// calls for an escape, or with the text.
pub proof fn lemma_run_length(text: Seq<char>)
    ensures
        run_length(text) <= text.len(),
        escape_free(text.take(run_length(text) as int)),
        run_length(text) < text.len() ==> escape_of(text[run_length(text) as int]) is Some,
    decreases text.len(),
{
    if text.len() > 0 && escape_of(text[0]) is None {
        let rest = text.drop_first();
        lemma_run_length(rest);
        let n = run_length(text) as int;
        assert forall|i: int| 0 <= i < n implies escape_of(#[trigger] text.take(n)[i]) is None by {
            if i > 0 {
                assert(text.take(n)[i] == rest.take(n - 1)[i - 1]);
            }
        }
    }
}

/// Where the first `n` characters of a text call for no escape, and the
/// next one does or there is none, the text begins with a run of length `n`.
pub proof fn lemma_run_ends(text: Seq<char>, n: int)
    requires
        0 <= n <= text.len(),
        forall|i: int| 0 <= i < n ==> escape_of(#[trigger] text[i]) is None,
        n < text.len() ==> escape_of(text[n]) is Some,
    ensures
        run_length(text) == n,
    decreases n,
{
    if n > 0 {
        let rest = text.drop_first();
        assert forall|i: int| 0 <= i < n - 1 implies escape_of(#[trigger] rest[i]) is None by {
            assert(rest[i] == text[i + 1]);
        }
        lemma_run_ends(rest, n - 1);
    }
}

/// A string without a character that calls for an escape is one run.
pub proof fn lemma_escape_free_string(text: Seq<char>)
    requires
        escape_free(text),
    ensures
        string_bytes(text) == seq![34u8] + run_bytes(text) + seq![34u8],
{
    lemma_run_ends(text, text.len() as int);
}

} // verus!
