use fast_cjson::{encode, CanonicalFormatter, CharEscape, EncodeError, Field, JsonValue, Number};

fn integer(n: u64) -> JsonValue {
    JsonValue::Number(Number::PosInt(n))
}

fn text(s: &str) -> JsonValue {
    JsonValue::String(s.to_string())
}

fn object(members: Vec<(&str, JsonValue)>) -> JsonValue {
    JsonValue::Object(
        members
            .into_iter()
            .map(|(name, value)| Field { name: name.to_string(), value })
            .collect(),
    )
}

fn canonical(fragment: &str) -> Result<Vec<u8>, EncodeError> {
    let mut formatter = CanonicalFormatter::new();
    let mut out = Vec::new();
    formatter.write_raw_fragment(&mut out, fragment)?;
    assert_eq!(formatter.depth(), 0);
    Ok(out)
}

#[test]
fn nested_objects_are_sorted() {
    let value = object(vec![
        ("b", object(vec![("y", integer(2)), ("x", integer(1))])),
        ("a", integer(1)),
    ]);
    assert_eq!(encode(&value).unwrap(), br#"{"a":1,"b":{"x":1,"y":2}}"#.to_vec());
}

#[test]
fn member_order_does_not_matter() {
    let one = object(vec![("b", integer(2)), ("a", integer(1)), ("c", integer(3))]);
    let other = object(vec![("c", integer(3)), ("b", integer(2)), ("a", integer(1))]);
    assert_eq!(encode(&one).unwrap(), encode(&other).unwrap());
    assert_eq!(encode(&one).unwrap(), br#"{"a":1,"b":2,"c":3}"#.to_vec());
}

#[test]
fn fragment_is_encoded_anew() {
    assert_eq!(canonical(r#"{"z":1,"a":2}"#).unwrap(), br#"{"a":2,"z":1}"#.to_vec());
}

#[test]
fn fragment_inside_an_object_value() {
    let mut formatter = CanonicalFormatter::new();
    let mut out = Vec::new();
    formatter.begin_object(&mut out);
    formatter.begin_object_key(true).unwrap();
    formatter.write_str(&mut out, "k");
    formatter.end_object_key().unwrap();
    formatter.begin_object_value();
    formatter.write_raw_fragment(&mut out, r#" { "z" : 1 , "a" : [ 2, 3 ] } "#).unwrap();
    formatter.end_object_value().unwrap();
    assert_eq!(out, b"{".to_vec());
    formatter.end_object(&mut out).unwrap();
    assert_eq!(out, br#"{"k":{"a":[2,3],"z":1}}"#.to_vec());
}

#[test]
fn encoding_is_idempotent() {
    let value = object(vec![
        ("b", JsonValue::Array(vec![integer(1), JsonValue::Null, JsonValue::Bool(true)])),
        ("a", text("a\"b\\c/d")),
        ("c", object(vec![("y", JsonValue::Number(Number::NegInt(-7))), ("x", text("e\u{301}"))])),
    ]);
    let first = encode(&value).unwrap();
    let again = canonical(std::str::from_utf8(&first).unwrap()).unwrap();
    assert_eq!(first, again);
}

#[test]
fn nfc_equivalent_strings_encode_alike() {
    let composed = object(vec![("k", text("\u{e9}"))]);
    let decomposed = object(vec![("k", text("e\u{301}"))]);
    assert_eq!(encode(&composed).unwrap(), encode(&decomposed).unwrap());
    assert_eq!(encode(&composed).unwrap(), "{\"k\":\"\u{e9}\"}".as_bytes().to_vec());
}

#[test]
fn float_in_a_fragment_is_refused() {
    assert!(matches!(canonical(r#"{"k": 1.5}"#), Err(EncodeError::UnsupportedValue)));
}

#[test]
fn float_shaped_number_text_is_refused() {
    let mut formatter = CanonicalFormatter::new();
    let mut out = Vec::new();
    assert!(matches!(
        formatter.write_number_str(&mut out, "1.5"),
        Err(EncodeError::UnsupportedValue)
    ));
    assert!(matches!(
        formatter.write_number_str(&mut out, "1e5"),
        Err(EncodeError::UnsupportedValue)
    ));
    assert!(matches!(
        formatter.write_number_str(&mut out, "1E5"),
        Err(EncodeError::UnsupportedValue)
    ));
    assert!(out.is_empty());
    formatter.write_number_str(&mut out, "-15").unwrap();
    assert_eq!(out, b"-15".to_vec());
}

#[test]
fn integer_member_is_written_verbatim() {
    assert_eq!(canonical(r#"{"k": 1}"#).unwrap(), br#"{"k":1}"#.to_vec());
    assert_eq!(encode(&object(vec![("k", integer(1))])).unwrap(), br#"{"k":1}"#.to_vec());
}

#[test]
fn floats_are_refused_whatever_their_value() {
    let mut formatter = CanonicalFormatter::new();
    assert!(matches!(formatter.write_f32(), Err(EncodeError::UnsupportedValue)));
    assert!(matches!(formatter.write_f64(), Err(EncodeError::UnsupportedValue)));
    let value = JsonValue::Array(vec![integer(1), JsonValue::Number(Number::Float)]);
    assert!(matches!(encode(&value), Err(EncodeError::UnsupportedValue)));
}

#[test]
fn only_quote_and_backslash_are_escaped_in_a_key() {
    let value = object(vec![("a\"b\\c/d", integer(1))]);
    assert_eq!(encode(&value).unwrap(), br#"{"a\"b\\c/d":1}"#.to_vec());
}

#[test]
fn control_characters_are_written_as_they_are() {
    let value = text("a\nb\tc\u{1}d\u{8}\u{c}\r");
    assert_eq!(encode(&value).unwrap(), b"\"a\nb\tc\x01d\x08\x0c\r\"".to_vec());
}

#[test]
fn each_escape_is_written_by_the_policy() {
    let cases: Vec<(CharEscape, &[u8])> = vec![
        (CharEscape::Quote, b"\\\""),
        (CharEscape::ReverseSolidus, b"\\\\"),
        (CharEscape::Solidus, b"/"),
        (CharEscape::Backspace, b"\x08"),
        (CharEscape::FormFeed, b"\x0c"),
        (CharEscape::LineFeed, b"\n"),
        (CharEscape::CarriageReturn, b"\r"),
        (CharEscape::Tab, b"\t"),
        (CharEscape::AsciiControl(0x1f), b"\x1f"),
    ];
    for (escape, expected) in cases {
        let mut formatter = CanonicalFormatter::new();
        let mut out = Vec::new();
        formatter.write_char_escape(&mut out, escape);
        assert_eq!(out, expected.to_vec());
    }
}

#[test]
fn invalid_fragment_is_refused() {
    assert!(matches!(canonical(r#"{"z":1,"#), Err(EncodeError::RawFragment(_))));
    assert!(matches!(canonical(""), Err(EncodeError::RawFragment(_))));
    assert!(matches!(canonical("1 2"), Err(EncodeError::RawFragment(_))));
}

#[test]
fn member_events_without_an_open_object_are_refused() {
    let mut formatter = CanonicalFormatter::new();
    let mut out = Vec::new();
    assert!(matches!(formatter.begin_object_key(true), Err(EncodeError::UsageViolation)));
    assert!(matches!(formatter.end_object_key(), Err(EncodeError::UsageViolation)));
    assert!(matches!(formatter.end_object_value(), Err(EncodeError::UsageViolation)));
    assert!(matches!(formatter.end_object(&mut out), Err(EncodeError::UsageViolation)));
    assert!(matches!(formatter.obj_mut(), Err(EncodeError::UsageViolation)));
    assert!(out.is_empty());
    assert_eq!(formatter.depth(), 0);
}

#[test]
fn duplicate_encoded_keys_keep_the_last_value() {
    let value = object(vec![("a", integer(1)), ("b", integer(2)), ("a", integer(3))]);
    assert_eq!(encode(&value).unwrap(), br#"{"a":3,"b":2}"#.to_vec());
    let value = object(vec![("\u{e9}", integer(1)), ("e\u{301}", integer(2))]);
    assert_eq!(encode(&value).unwrap(), "{\"\u{e9}\":2}".as_bytes().to_vec());
}

#[test]
fn scalars_are_written_compactly() {
    let mut formatter = CanonicalFormatter::new();
    let mut out = Vec::new();
    formatter.begin_array(&mut out);
    formatter.begin_array_value(&mut out, true);
    formatter.write_null(&mut out);
    formatter.end_array_value(&mut out);
    formatter.begin_array_value(&mut out, false);
    formatter.write_bool(&mut out, true);
    formatter.end_array_value(&mut out);
    formatter.begin_array_value(&mut out, false);
    formatter.write_bool(&mut out, false);
    formatter.end_array_value(&mut out);
    formatter.begin_array_value(&mut out, false);
    formatter.write_i8(&mut out, -128);
    formatter.end_array_value(&mut out);
    formatter.begin_array_value(&mut out, false);
    formatter.write_i16(&mut out, -32768);
    formatter.end_array_value(&mut out);
    formatter.begin_array_value(&mut out, false);
    formatter.write_i32(&mut out, i32::MIN);
    formatter.end_array_value(&mut out);
    formatter.begin_array_value(&mut out, false);
    formatter.write_i64(&mut out, i64::MIN);
    formatter.end_array_value(&mut out);
    formatter.begin_array_value(&mut out, false);
    formatter.write_i128(&mut out, i128::MIN);
    formatter.end_array_value(&mut out);
    formatter.begin_array_value(&mut out, false);
    formatter.write_u8(&mut out, 255);
    formatter.end_array_value(&mut out);
    formatter.begin_array_value(&mut out, false);
    formatter.write_u16(&mut out, 65535);
    formatter.end_array_value(&mut out);
    formatter.begin_array_value(&mut out, false);
    formatter.write_u32(&mut out, u32::MAX);
    formatter.end_array_value(&mut out);
    formatter.begin_array_value(&mut out, false);
    formatter.write_u64(&mut out, u64::MAX);
    formatter.end_array_value(&mut out);
    formatter.begin_array_value(&mut out, false);
    formatter.write_u128(&mut out, u128::MAX);
    formatter.end_array_value(&mut out);
    formatter.begin_array_value(&mut out, false);
    formatter.write_byte_array(&mut out, &[0, 7, 255]);
    formatter.end_array_value(&mut out);
    formatter.begin_array_value(&mut out, false);
    formatter.write_byte_array(&mut out, &[]);
    formatter.end_array_value(&mut out);
    formatter.end_array(&mut out);
    let expected = "[null,true,false,-128,-32768,-2147483648,-9223372036854775808,\
        -170141183460469231731687303715884105728,255,65535,4294967295,18446744073709551615,\
        340282366920938463463374607431768211455,[0,7,255],[]]";
    assert_eq!(String::from_utf8(out).unwrap(), expected);
}

#[test]
fn keys_sort_by_their_encoded_bytes() {
    // A proper prefix comes first; an upper-case letter comes before a
    // lower-case one; a two-byte character comes after every ASCII one.
    let value = object(vec![
        ("\u{e9}", integer(5)),
        ("ab", integer(3)),
        ("b", integer(4)),
        ("a", integer(2)),
        ("B", integer(1)),
        ("", integer(0)),
    ]);
    assert_eq!(
        encode(&value).unwrap(),
        "{\"\":0,\"B\":1,\"a\":2,\"ab\":3,\"b\":4,\"\u{e9}\":5}".as_bytes().to_vec()
    );
}

#[test]
fn bytes_outside_objects_go_to_the_output_at_once() {
    let mut formatter = CanonicalFormatter::new();
    let mut out = Vec::new();
    formatter.begin_array(&mut out);
    assert_eq!(out, b"[".to_vec());
    formatter.begin_array_value(&mut out, true);
    formatter.begin_object(&mut out);
    assert_eq!(out, b"[{".to_vec());
    assert_eq!(formatter.depth(), 1);
    formatter.begin_object_key(true).unwrap();
    formatter.write_str(&mut out, "k");
    formatter.end_object_key().unwrap();
    formatter.begin_object_value();
    formatter.begin_object(&mut out);
    assert_eq!(formatter.depth(), 2);
    formatter.end_object(&mut out).unwrap();
    formatter.end_object_value().unwrap();
    assert_eq!(out, b"[{".to_vec());
    formatter.end_object(&mut out).unwrap();
    assert_eq!(out, br#"[{"k":{}}"#.to_vec());
    formatter.end_array_value(&mut out);
    formatter.end_array(&mut out);
    assert_eq!(out, br#"[{"k":{}}]"#.to_vec());
    assert_eq!(formatter.depth(), 0);
}
