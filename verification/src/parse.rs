//! Reading JSON text, by `serde_json`.

use vstd::prelude::*;
use crate::value::{Field, Json, JsonValue, Number};

verus! {

/// The error that `serde_json` gives for a text that it cannot read.
#[verifier::external_type_specification]
#[verifier::external_body]
pub struct ExJsonError(serde_json::Error);

/// The value tree that `serde_json` reads a text into.
#[verifier::external_type_specification]
#[verifier::external_body]
pub struct ExJsonTree(serde_json::Value);

/// The value that `serde_json` reads `text` as, or `None` where it takes
/// `text` for no JSON text.
pub uninterp spec fn parsed(text: Seq<char>) -> Option<Json>;

/// Calls `serde_json::from_str` for a `serde_json::Value`, and hands the
/// value on in this library's type. The text is read as one whole JSON
/// value; a text that is none gives the error of `serde_json`.
#[verifier::external_body]
pub(crate) fn parse(fragment: &str) -> (r: Result<JsonValue, serde_json::Error>)
    ensures
        match r {
            Ok(value) => parsed(fragment@) == Some(value@),
            Err(_) => parsed(fragment@) is None,
        },
{
    serde_json::from_str::<serde_json::Value>(fragment).map(convert)
}

/// Turns a `serde_json::Value` into this library's type, variant by
/// variant. Of a number only this is kept: the integer that it is, or that
/// it is none.
#[verifier::external_body]
fn convert(value: serde_json::Value) -> JsonValue {
    match value {
        serde_json::Value::Null => JsonValue::Null,
        serde_json::Value::Bool(b) => JsonValue::Bool(b),
        serde_json::Value::Number(n) => JsonValue::Number(match (n.as_u64(), n.as_i64()) {
            (Some(u), _) => Number::PosInt(u),
            (_, Some(i)) => Number::NegInt(i),
            _ => Number::Float,
        }),
        serde_json::Value::String(s) => JsonValue::String(s),
        serde_json::Value::Array(a) => JsonValue::Array(a.into_iter().map(convert).collect()),
        serde_json::Value::Object(o) => JsonValue::Object(
            o.into_iter().map(|(name, value)| Field { name, value: convert(value) }).collect(),
        ),
    }
}

} // verus!
