//! The compact JSON primitives: what each one appends to a byte buffer.
//!
//! The bytes are written by `serde_json`'s `CompactFormatter`. The functions
//! of this module hand it a `Vec<u8>` as its writer; appending to a vector
//! cannot fail, so none of them returns an error.

use vstd::prelude::*;
use serde_json::ser::{CompactFormatter, Formatter};

verus! {

/// The ASCII digit for `d`, where `0 <= d <= 9`.
pub open spec fn digit(d: int) -> u8 {
    (48 + d) as u8
}

/// The decimal digits of `n`, most significant first, without leading zeros.
pub open spec fn decimal_nat(n: nat) -> Seq<u8>
    decreases n,
{
    if n < 10 {
        seq![digit(n as int)]
    } else {
        decimal_nat(n / 10).push(digit((n % 10) as int))
    }
}

/// The decimal notation of `n`: a minus sign where `n` is negative, then its digits.
pub open spec fn decimal(n: int) -> Seq<u8> {
    if n < 0 {
        seq![45u8] + decimal_nat((-n) as nat)
    } else {
        decimal_nat(n as nat)
    }
}

/// `null`.
pub open spec fn null_bytes() -> Seq<u8> {
    seq![110u8, 117u8, 108u8, 108u8]
}

/// `true` or `false`.
pub open spec fn bool_bytes(value: bool) -> Seq<u8> {
    if value {
        seq![116u8, 114u8, 117u8, 101u8]
    } else {
        seq![102u8, 97u8, 108u8, 115u8, 101u8]
    }
}

/// The decimal notations of `bytes`, separated by commas.
pub open spec fn decimal_list(bytes: Seq<u8>) -> Seq<u8>
    decreases bytes.len(),
{
    if bytes.len() == 0 {
        seq![]
    } else if bytes.len() == 1 {
        decimal(bytes[0] as int)
    } else {
        decimal_list(bytes.drop_last()) + seq![44u8] + decimal(bytes.last() as int)
    }
}

/// A byte array as a JSON array of numbers, such as `[1,2,3]`.
pub open spec fn byte_array_bytes(bytes: Seq<u8>) -> Seq<u8> {
    seq![91u8] + decimal_list(bytes) + seq![93u8]
}

/// What stands before a member of an array or object: nothing before the
/// first one, a comma before each of the others.
pub open spec fn separator(first: bool) -> Seq<u8> {
    if first {
        seq![]
    } else {
        seq![44u8]
    }
}

/// Calls `CompactFormatter::write_null`, which writes `null`.
#[verifier::external_body]
pub(crate) fn write_null(out: &mut Vec<u8>)
    ensures
        final(out)@ == old(out)@ + null_bytes(),
{
    let _ = CompactFormatter.write_null(out);
}

/// Calls `CompactFormatter::write_bool`, which writes `true` or `false`.
#[verifier::external_body]
pub(crate) fn write_bool(out: &mut Vec<u8>, value: bool)
    ensures
        final(out)@ == old(out)@ + bool_bytes(value),
{
    let _ = CompactFormatter.write_bool(out, value);
}

/// Calls `CompactFormatter::write_i8`, which writes the integer in decimal notation.
#[verifier::external_body]
pub(crate) fn write_i8(out: &mut Vec<u8>, value: i8)
    ensures
        final(out)@ == old(out)@ + decimal(value as int),
{
    let _ = CompactFormatter.write_i8(out, value);
}

/// Calls `CompactFormatter::write_i16`, which writes the integer in decimal notation.
#[verifier::external_body]
pub(crate) fn write_i16(out: &mut Vec<u8>, value: i16)
    ensures
        final(out)@ == old(out)@ + decimal(value as int),
{
    let _ = CompactFormatter.write_i16(out, value);
}

/// Calls `CompactFormatter::write_i32`, which writes the integer in decimal notation.
#[verifier::external_body]
pub(crate) fn write_i32(out: &mut Vec<u8>, value: i32)
    ensures
        final(out)@ == old(out)@ + decimal(value as int),
{
    let _ = CompactFormatter.write_i32(out, value);
}

/// Calls `CompactFormatter::write_i64`, which writes the integer in decimal notation.
#[verifier::external_body]
pub(crate) fn write_i64(out: &mut Vec<u8>, value: i64)
    ensures
        final(out)@ == old(out)@ + decimal(value as int),
{
    let _ = CompactFormatter.write_i64(out, value);
}

/// Calls `CompactFormatter::write_i128`, which writes the integer in decimal notation.
#[verifier::external_body]
pub(crate) fn write_i128(out: &mut Vec<u8>, value: i128)
    ensures
        final(out)@ == old(out)@ + decimal(value as int),
{
    let _ = CompactFormatter.write_i128(out, value);
}

/// Calls `CompactFormatter::write_u8`, which writes the integer in decimal notation.
#[verifier::external_body]
pub(crate) fn write_u8(out: &mut Vec<u8>, value: u8)
    ensures
        final(out)@ == old(out)@ + decimal(value as int),
{
    let _ = CompactFormatter.write_u8(out, value);
}

/// Calls `CompactFormatter::write_u16`, which writes the integer in decimal notation.
#[verifier::external_body]
pub(crate) fn write_u16(out: &mut Vec<u8>, value: u16)
    ensures
        final(out)@ == old(out)@ + decimal(value as int),
{
    let _ = CompactFormatter.write_u16(out, value);
}

/// Calls `CompactFormatter::write_u32`, which writes the integer in decimal notation.
#[verifier::external_body]
pub(crate) fn write_u32(out: &mut Vec<u8>, value: u32)
    ensures
        final(out)@ == old(out)@ + decimal(value as int),
{
    let _ = CompactFormatter.write_u32(out, value);
}

/// Calls `CompactFormatter::write_u64`, which writes the integer in decimal notation.
#[verifier::external_body]
pub(crate) fn write_u64(out: &mut Vec<u8>, value: u64)
    ensures
        final(out)@ == old(out)@ + decimal(value as int),
{
    let _ = CompactFormatter.write_u64(out, value);
}

/// Calls `CompactFormatter::write_u128`, which writes the integer in decimal notation.
#[verifier::external_body]
pub(crate) fn write_u128(out: &mut Vec<u8>, value: u128)
    ensures
        final(out)@ == old(out)@ + decimal(value as int),
{
    let _ = CompactFormatter.write_u128(out, value);
}

/// Calls `CompactFormatter::write_number_str`, which writes the UTF-8 bytes
/// of `value` as they are.
#[verifier::external_body]
pub(crate) fn write_number_str(out: &mut Vec<u8>, value: &str)
    ensures
        final(out)@ == old(out)@ + vstd::utf8::encode_utf8(value@),
{
    let _ = CompactFormatter.write_number_str(out, value);
}

/// Calls `CompactFormatter::write_byte_array`, which writes the bytes as an
/// array of decimal numbers.
#[verifier::external_body]
pub(crate) fn write_byte_array(out: &mut Vec<u8>, value: &[u8])
    ensures
        final(out)@ == old(out)@ + byte_array_bytes(value@),
{
    let _ = CompactFormatter.write_byte_array(out, value);
}

/// Calls `CompactFormatter::begin_string`, which writes `"`.
#[verifier::external_body]
pub(crate) fn begin_string(out: &mut Vec<u8>)
    ensures
        final(out)@ == old(out)@ + seq![34u8],
{
    let _ = CompactFormatter.begin_string(out);
}

/// Calls `CompactFormatter::end_string`, which writes `"`.
#[verifier::external_body]
pub(crate) fn end_string(out: &mut Vec<u8>)
    ensures
        final(out)@ == old(out)@ + seq![34u8],
{
    let _ = CompactFormatter.end_string(out);
}

/// Calls `CompactFormatter::begin_array`, which writes `[`.
#[verifier::external_body]
pub(crate) fn begin_array(out: &mut Vec<u8>)
    ensures
        final(out)@ == old(out)@ + seq![91u8],
{
    let _ = CompactFormatter.begin_array(out);
}

/// Calls `CompactFormatter::end_array`, which writes `]`.
#[verifier::external_body]
pub(crate) fn end_array(out: &mut Vec<u8>)
    ensures
        final(out)@ == old(out)@ + seq![93u8],
{
    let _ = CompactFormatter.end_array(out);
}

/// Calls `CompactFormatter::begin_array_value`, which writes a comma unless
/// the value is the first of its array.
#[verifier::external_body]
pub(crate) fn begin_array_value(out: &mut Vec<u8>, first: bool)
    ensures
        final(out)@ == old(out)@ + separator(first),
{
    let _ = CompactFormatter.begin_array_value(out, first);
}

/// Calls `CompactFormatter::end_array_value`, which writes nothing.
#[verifier::external_body]
pub(crate) fn end_array_value(out: &mut Vec<u8>)
    ensures
        final(out)@ == old(out)@,
{
    let _ = CompactFormatter.end_array_value(out);
}

/// Calls `CompactFormatter::begin_object`, which writes `{`.
#[verifier::external_body]
pub(crate) fn begin_object(out: &mut Vec<u8>)
    ensures
        final(out)@ == old(out)@ + seq![123u8],
{
    let _ = CompactFormatter.begin_object(out);
}

/// Calls `CompactFormatter::end_object`, which writes `}`.
#[verifier::external_body]
pub(crate) fn end_object(out: &mut Vec<u8>)
    ensures
        final(out)@ == old(out)@ + seq![125u8],
{
    let _ = CompactFormatter.end_object(out);
}

/// Calls `CompactFormatter::begin_object_key`, which writes a comma unless
/// the key is the first of its object.
#[verifier::external_body]
pub(crate) fn begin_object_key(out: &mut Vec<u8>, first: bool)
    ensures
        final(out)@ == old(out)@ + separator(first),
{
    let _ = CompactFormatter.begin_object_key(out, first);
}

/// Calls `CompactFormatter::end_object_key`, which writes nothing.
#[verifier::external_body]
pub(crate) fn end_object_key(out: &mut Vec<u8>)
    ensures
        final(out)@ == old(out)@,
{
    let _ = CompactFormatter.end_object_key(out);
}

/// Calls `CompactFormatter::begin_object_value`, which writes `:`.
#[verifier::external_body]
pub(crate) fn begin_object_value(out: &mut Vec<u8>)
    ensures
        final(out)@ == old(out)@ + seq![58u8],
{
    let _ = CompactFormatter.begin_object_value(out);
}

/// Calls `CompactFormatter::end_object_value`, which writes nothing.
#[verifier::external_body]
pub(crate) fn end_object_value(out: &mut Vec<u8>)
    ensures
        final(out)@ == old(out)@,
{
    let _ = CompactFormatter.end_object_value(out);
}

} // verus!
