//! The formatter driven by `serde_json`'s serializer gives what the
//! library's own walk gives.

use std::io;

use fast_cjson::{CanonicalFormatter, CharEscape as Escape, EncodeError};
use serde::Serialize;
use serde_json::ser::{CharEscape, Formatter, Serializer};

#[derive(Default)]
struct Driven {
    formatter: CanonicalFormatter,
    pending: Vec<u8>,
}

impl Driven {
    fn flush<W: io::Write + ?Sized>(&mut self, writer: &mut W) -> io::Result<()> {
        let written = writer.write_all(&self.pending);
        self.pending.clear();
        written
    }
}

fn refused(error: EncodeError) -> io::Error {
    match error {
        EncodeError::UsageViolation => io::Error::other("no object is open"),
        EncodeError::UnsupportedValue => {
            io::Error::new(io::ErrorKind::InvalidInput, "floating point numbers are not allowed")
        }
        EncodeError::RawFragment(error) => error.into(),
    }
}

impl Formatter for Driven {
    fn write_null<W: io::Write + ?Sized>(&mut self, writer: &mut W) -> io::Result<()> {
        self.formatter.write_null(&mut self.pending);
        self.flush(writer)
    }

    fn write_bool<W: io::Write + ?Sized>(&mut self, writer: &mut W, value: bool) -> io::Result<()> {
        self.formatter.write_bool(&mut self.pending, value);
        self.flush(writer)
    }

    fn write_i64<W: io::Write + ?Sized>(&mut self, writer: &mut W, value: i64) -> io::Result<()> {
        self.formatter.write_i64(&mut self.pending, value);
        self.flush(writer)
    }

    fn write_u64<W: io::Write + ?Sized>(&mut self, writer: &mut W, value: u64) -> io::Result<()> {
        self.formatter.write_u64(&mut self.pending, value);
        self.flush(writer)
    }

    fn write_f64<W: io::Write + ?Sized>(&mut self, _writer: &mut W, _value: f64) -> io::Result<()> {
        self.formatter.write_f64().map_err(refused)
    }

    fn begin_string<W: io::Write + ?Sized>(&mut self, writer: &mut W) -> io::Result<()> {
        self.formatter.begin_string(&mut self.pending);
        self.flush(writer)
    }

    fn end_string<W: io::Write + ?Sized>(&mut self, writer: &mut W) -> io::Result<()> {
        self.formatter.end_string(&mut self.pending);
        self.flush(writer)
    }

    fn write_string_fragment<W: io::Write + ?Sized>(
        &mut self,
        writer: &mut W,
        fragment: &str,
    ) -> io::Result<()> {
        self.formatter.write_string_fragment(&mut self.pending, fragment);
        self.flush(writer)
    }

    fn write_char_escape<W: io::Write + ?Sized>(
        &mut self,
        writer: &mut W,
        char_escape: CharEscape,
    ) -> io::Result<()> {
        let escape = match char_escape {
            CharEscape::Quote => Escape::Quote,
            CharEscape::ReverseSolidus => Escape::ReverseSolidus,
            CharEscape::Solidus => Escape::Solidus,
            CharEscape::Backspace => Escape::Backspace,
            CharEscape::FormFeed => Escape::FormFeed,
            CharEscape::LineFeed => Escape::LineFeed,
            CharEscape::CarriageReturn => Escape::CarriageReturn,
            CharEscape::Tab => Escape::Tab,
            CharEscape::AsciiControl(byte) => Escape::AsciiControl(byte),
        };
        self.formatter.write_char_escape(&mut self.pending, escape);
        self.flush(writer)
    }

    fn begin_array<W: io::Write + ?Sized>(&mut self, writer: &mut W) -> io::Result<()> {
        self.formatter.begin_array(&mut self.pending);
        self.flush(writer)
    }

    fn end_array<W: io::Write + ?Sized>(&mut self, writer: &mut W) -> io::Result<()> {
        self.formatter.end_array(&mut self.pending);
        self.flush(writer)
    }

    fn begin_array_value<W: io::Write + ?Sized>(
        &mut self,
        writer: &mut W,
        first: bool,
    ) -> io::Result<()> {
        self.formatter.begin_array_value(&mut self.pending, first);
        self.flush(writer)
    }

    fn end_array_value<W: io::Write + ?Sized>(&mut self, writer: &mut W) -> io::Result<()> {
        self.formatter.end_array_value(&mut self.pending);
        self.flush(writer)
    }

    fn begin_object<W: io::Write + ?Sized>(&mut self, writer: &mut W) -> io::Result<()> {
        self.formatter.begin_object(&mut self.pending);
        self.flush(writer)
    }

    fn end_object<W: io::Write + ?Sized>(&mut self, writer: &mut W) -> io::Result<()> {
        self.formatter.end_object(&mut self.pending).map_err(refused)?;
        self.flush(writer)
    }

    fn begin_object_key<W: io::Write + ?Sized>(
        &mut self,
        _writer: &mut W,
        first: bool,
    ) -> io::Result<()> {
        self.formatter.begin_object_key(first).map_err(refused)
    }

    fn end_object_key<W: io::Write + ?Sized>(&mut self, _writer: &mut W) -> io::Result<()> {
        assert!(self.formatter.depth() == 0 || self.formatter.is_collecting_key());
        self.formatter.end_object_key().map_err(refused)
    }

    fn begin_object_value<W: io::Write + ?Sized>(&mut self, _writer: &mut W) -> io::Result<()> {
        self.formatter.begin_object_value();
        Ok(())
    }

    fn end_object_value<W: io::Write + ?Sized>(&mut self, _writer: &mut W) -> io::Result<()> {
        assert!(self.formatter.depth() == 0 || self.formatter.is_collecting_value());
        self.formatter.end_object_value().map_err(refused)
    }
}

fn driven_by_serde(text: &str) -> io::Result<Vec<u8>> {
    let value: serde_json::Value = serde_json::from_str(text)?;
    let mut out = Vec::new();
    let mut serializer = Serializer::with_formatter(&mut out, Driven::default());
    value.serialize(&mut serializer)?;
    Ok(out)
}

fn walked_by_the_library(text: &str) -> Result<Vec<u8>, EncodeError> {
    let mut formatter = CanonicalFormatter::new();
    let mut out = Vec::new();
    formatter.write_raw_fragment(&mut out, text)?;
    Ok(out)
}

const DOCUMENTS: [&str; 14] = [
    "null",
    "true",
    "[]",
    "{}",
    "0",
    "-1",
    "18446744073709551615",
    "-9223372036854775808",
    r#""""#,
    r#""a\"b\\c\/d\n\t\u0000\u001f\u007f e\u0301""#,
    r#"{"b":{"y":2,"x":1},"a":1}"#,
    r#"{"z":1,"a":2}"#,
    r#"[{"k\"":[1,[2,{"\u00e9":null,"e\u0301":false}]],"":""},"\ud83d\ude00"]"#,
    r#"{"b":[],"a":{},"c":[{},{"b":1,"a":[true,false,null]}],"A":"\\","aa":"/"}"#,
];

#[test]
fn serde_and_the_library_walk_alike() {
    for text in DOCUMENTS {
        let by_serde = driven_by_serde(text).unwrap();
        let by_library = walked_by_the_library(text).unwrap();
        assert_eq!(by_serde, by_library, "{text}");
    }
}

#[test]
fn serde_driven_output_is_canonical() {
    assert_eq!(
        driven_by_serde(r#"{"b":{"y":2,"x":1},"a":1}"#).unwrap(),
        br#"{"a":1,"b":{"x":1,"y":2}}"#.to_vec()
    );
    assert_eq!(
        driven_by_serde(r#"{"a\"b\\c/d":"e\u0301"}"#).unwrap(),
        "{\"a\\\"b\\\\c/d\":\"\u{e9}\"}".as_bytes().to_vec()
    );
}

#[test]
fn serde_driven_floats_are_refused() {
    for text in ["1.5", "[1, 2.0]", r#"{"k": 1e3}"#, "18446744073709551616"] {
        let error = driven_by_serde(text).unwrap_err();
        assert_eq!(error.kind(), io::ErrorKind::InvalidInput, "{text}");
        assert!(matches!(walked_by_the_library(text), Err(EncodeError::UnsupportedValue)), "{text}");
    }
}

#[test]
fn canonical_output_is_a_fixed_point() {
    for text in DOCUMENTS {
        // A control character is written as it is, and no parser takes it back.
        if text.contains(r"\n") {
            continue;
        }
        let once = walked_by_the_library(text).unwrap();
        let twice = walked_by_the_library(std::str::from_utf8(&once).unwrap()).unwrap();
        assert_eq!(once, twice, "{text}");
        let by_serde = driven_by_serde(std::str::from_utf8(&once).unwrap()).unwrap();
        assert_eq!(once, by_serde, "{text}");
    }
}

#[test]
fn a_control_character_is_not_read_back() {
    let once = walked_by_the_library(r#""a\nb""#).unwrap();
    assert_eq!(once, b"\"a\nb\"".to_vec());
    assert!(matches!(
        walked_by_the_library(std::str::from_utf8(&once).unwrap()),
        Err(EncodeError::RawFragment(_))
    ));
}
