use fast_cjson::members::Members;
use fast_cjson::number::is_float_shaped;
use fast_cjson::order::{compare, Rank};
use fast_cjson::walk::holds_float;
use fast_cjson::{CanonicalFormatter, Collecting, EncodeError, Field, JsonValue, Number, Object};

#[test]
fn byte_strings_compare_lexicographically() {
    assert_eq!(compare(b"", b""), Rank::Same);
    assert_eq!(compare(b"", b"a"), Rank::Before);
    assert_eq!(compare(b"a", b""), Rank::After);
    assert_eq!(compare(b"a", b"a"), Rank::Same);
    assert_eq!(compare(b"a", b"ab"), Rank::Before);
    assert_eq!(compare(b"ab", b"a"), Rank::After);
    assert_eq!(compare(b"ab", b"b"), Rank::Before);
    assert_eq!(compare(b"b", b"ab"), Rank::After);
    assert_eq!(compare(b"B", b"a"), Rank::Before);
    assert_eq!(compare(&[0x7f], &[0x80]), Rank::Before);
    assert_eq!(compare(&[0xff], &[0x00, 0xff]), Rank::After);
    assert_eq!(compare(b"abc", b"abd"), Rank::Before);
    assert_eq!(compare(b"abd", b"abc"), Rank::After);
}

#[test]
fn byte_order_agrees_with_the_order_of_slices() {
    let samples: [&[u8]; 7] = [b"", b"a", b"ab", b"b", b"\"k\"", b"\"ka\"", &[0xc3, 0xa9]];
    for a in samples {
        for b in samples {
            let expected = match a.cmp(b) {
                std::cmp::Ordering::Less => Rank::Before,
                std::cmp::Ordering::Equal => Rank::Same,
                std::cmp::Ordering::Greater => Rank::After,
            };
            assert_eq!(compare(a, b), expected);
        }
    }
}

#[test]
fn members_come_out_in_ascending_key_order() {
    let mut members = Members::new();
    assert_eq!(members.len(), 0);
    members.insert(b"m".to_vec(), b"1".to_vec());
    members.insert(b"z".to_vec(), b"2".to_vec());
    members.insert(b"a".to_vec(), b"3".to_vec());
    members.insert(b"ma".to_vec(), b"4".to_vec());
    assert_eq!(members.len(), 4);
    let keys: Vec<&[u8]> = (0..4).map(|i| members.key(i).as_slice()).collect();
    let values: Vec<&[u8]> = (0..4).map(|i| members.value(i).as_slice()).collect();
    assert_eq!(keys, [b"a".as_slice(), b"m", b"ma", b"z"]);
    assert_eq!(values, [b"3".as_slice(), b"1", b"4", b"2"]);
}

#[test]
fn a_member_with_a_known_key_replaces_the_old_one() {
    let mut members = Members::new();
    members.insert(b"k".to_vec(), b"old".to_vec());
    members.insert(b"j".to_vec(), b"other".to_vec());
    members.insert(b"k".to_vec(), b"new".to_vec());
    assert_eq!(members.len(), 2);
    assert_eq!(members.key(0).as_slice(), b"j");
    assert_eq!(members.value(0).as_slice(), b"other");
    assert_eq!(members.key(1).as_slice(), b"k");
    assert_eq!(members.value(1).as_slice(), b"new");
}

#[test]
fn many_members_stay_sorted() {
    let mut members = Members::new();
    let mut expected: Vec<Vec<u8>> = Vec::new();
    for i in 0..200u32 {
        let key = format!("{}", (i * 7919) % 1000).into_bytes();
        members.insert(key.clone(), i.to_string().into_bytes());
        if !expected.contains(&key) {
            expected.push(key);
        }
    }
    expected.sort();
    assert_eq!(members.len(), expected.len());
    for (i, key) in expected.iter().enumerate() {
        assert_eq!(members.key(i), key);
    }
}

#[test]
fn a_decimal_point_or_an_exponent_makes_a_number_float_shaped() {
    assert!(is_float_shaped("1.5"));
    assert!(is_float_shaped("1e5"));
    assert!(is_float_shaped("1E5"));
    assert!(is_float_shaped("."));
    assert!(is_float_shaped("-0.0"));
    assert!(!is_float_shaped(""));
    assert!(!is_float_shaped("0"));
    assert!(!is_float_shaped("-123456789012345678901234567890"));
    assert!(!is_float_shaped("\u{ff0e}"));
}

#[test]
fn a_float_is_found_wherever_it_stands() {
    let float = || JsonValue::Number(Number::Float);
    let one = || JsonValue::Number(Number::PosInt(1));
    assert!(holds_float(&float()));
    assert!(!holds_float(&one()));
    assert!(!holds_float(&JsonValue::Null));
    assert!(!holds_float(&JsonValue::String("1.5".to_string())));
    assert!(!holds_float(&JsonValue::Array(vec![])));
    assert!(holds_float(&JsonValue::Array(vec![one(), float()])));
    assert!(holds_float(&JsonValue::Array(vec![JsonValue::Array(vec![float()]), one()])));
    let nested = JsonValue::Object(vec![
        Field { name: "a".to_string(), value: one() },
        Field {
            name: "b".to_string(),
            value: JsonValue::Object(vec![Field { name: "c".to_string(), value: float() }]),
        },
    ]);
    assert!(holds_float(&nested));
}

#[test]
fn a_refused_value_leaves_no_trace() {
    let mut formatter = CanonicalFormatter::new();
    let mut out = b"[".to_vec();
    let value = JsonValue::Array(vec![
        JsonValue::Number(Number::PosInt(1)),
        JsonValue::Object(vec![Field {
            name: "k".to_string(),
            value: JsonValue::Number(Number::Float),
        }]),
    ]);
    assert!(matches!(
        formatter.write_value(&mut out, &value),
        Err(EncodeError::UnsupportedValue)
    ));
    assert_eq!(out, b"[".to_vec());
    assert_eq!(formatter.depth(), 0);
    assert!(matches!(
        formatter.write_fragment_value(&mut out, &value),
        Err(EncodeError::UnsupportedValue)
    ));
    assert!(matches!(
        formatter.write_raw_fragment(&mut out, "[1, {\"k\": 2.5}]"),
        Err(EncodeError::UnsupportedValue)
    ));
    assert!(matches!(
        formatter.write_raw_fragment(&mut out, "[1, {\"k\": 2"),
        Err(EncodeError::RawFragment(_))
    ));
    assert_eq!(out, b"[".to_vec());
    assert_eq!(formatter.depth(), 0);
}

#[test]
fn a_fragment_value_is_sorted_by_a_formatter_of_its_own() {
    let mut formatter = CanonicalFormatter::new();
    let mut out = Vec::new();
    formatter.begin_object(&mut out);
    formatter.begin_object_key(true).unwrap();
    formatter.write_str(&mut out, "outer");
    formatter.end_object_key().unwrap();
    formatter.begin_object_value();
    let value = JsonValue::Object(vec![
        Field { name: "z".to_string(), value: JsonValue::Number(Number::PosInt(1)) },
        Field { name: "a".to_string(), value: JsonValue::Number(Number::NegInt(-2)) },
    ]);
    formatter.write_fragment_value(&mut out, &value).unwrap();
    assert_eq!(formatter.depth(), 1);
    formatter.end_object_value().unwrap();
    formatter.end_object(&mut out).unwrap();
    assert_eq!(out, br#"{"outer":{"a":-2,"z":1}}"#.to_vec());
}

#[test]
fn the_formatter_tells_what_it_collects() {
    let mut formatter = CanonicalFormatter::new();
    let mut out = Vec::new();
    assert!(!formatter.is_collecting_key());
    assert!(!formatter.is_collecting_value());
    formatter.begin_object(&mut out);
    assert!(formatter.is_collecting_key());
    assert!(formatter.obj_mut().is_ok());
    formatter.begin_object_key(true).unwrap();
    assert!(formatter.is_collecting_key());
    formatter.write_u8(&mut out, 7);
    formatter.end_object_key().unwrap();
    assert!(formatter.is_collecting_value());
    formatter.begin_object_value();
    assert!(formatter.is_collecting_value());
    formatter.write_null(&mut out);
    formatter.end_object_value().unwrap();
    assert!(formatter.is_collecting_value());
    formatter.end_object(&mut out).unwrap();
    assert!(!formatter.is_collecting_key());
    assert!(!formatter.is_collecting_value());
    assert_eq!(out, b"{7:null}".to_vec());
}

#[test]
fn a_formatter_starts_with_no_object_open() {
    assert_eq!(CanonicalFormatter::new().depth(), 0);
    assert_eq!(CanonicalFormatter::default().depth(), 0);
    assert!(matches!(Collecting::default(), Collecting::Key(key) if key.is_empty()));
    let object = Object::default();
    assert!(format!("{object:?}").contains("Key"));
}

#[test]
fn a_string_is_split_at_each_escape() {
    let mut formatter = CanonicalFormatter::new();
    let mut out = Vec::new();
    formatter.write_str(&mut out, "");
    assert_eq!(out, b"\"\"".to_vec());
    out.clear();
    formatter.write_str(&mut out, "\"");
    assert_eq!(out, b"\"\\\"\"".to_vec());
    out.clear();
    formatter.write_str(&mut out, "\\\\");
    assert_eq!(out, b"\"\\\\\\\\\"".to_vec());
    out.clear();
    formatter.write_str(&mut out, "e\u{301}\"e\u{301}\u{0}\u{1f}\u{7f}e\u{301}");
    assert_eq!(out, "\"\u{e9}\\\"\u{e9}\u{0}\u{1f}\u{7f}\u{e9}\"".as_bytes().to_vec());
    out.clear();
    formatter.write_str(&mut out, "\u{1f600}\n\u{4e2d}");
    assert_eq!(out, "\"\u{1f600}\n\u{4e2d}\"".as_bytes().to_vec());
}

#[test]
fn a_fragment_is_normalized() {
    let mut formatter = CanonicalFormatter::new();
    let mut out = Vec::new();
    formatter.write_string_fragment(&mut out, "A\u{30a}");
    assert_eq!(out, "\u{c5}".as_bytes().to_vec());
    out.clear();
    formatter.write_string_fragment(&mut out, "\u{212b}");
    assert_eq!(out, "\u{c5}".as_bytes().to_vec());
    out.clear();
    formatter.write_string_fragment(&mut out, "plain");
    assert_eq!(out, b"plain".to_vec());
}
