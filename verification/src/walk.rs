//! The walk over a value: the events that it gives the formatter, in order.

use vstd::prelude::*;
use vstd::pervasive::unreached;
use vstd::utf8::{encode_scalar, encode_utf8, encode_utf8_valid_utf8, is_char_boundary, is_char_boundary_iff_is_leading_byte, char_is_scalar};
use crate::compact::separator;
use crate::escape::CharEscape;
use crate::formatter::{CanonicalFormatter, EncodeError};
use crate::parse::{parse, parsed};
use crate::state::{key_begun, key_ended, lemma_emit_emit, lemma_emit_nothing, members_bytes, state_of, value_ended, Frame, Slot, State};
use crate::utf8::{lemma_ascii_byte_in_utf8, lemma_encode_concat, lemma_encode_injective, lemma_scalar_bytes};
use crate::value::{canonical, dict_members, escape_free, escape_of, escape_of_code, has_float, lemma_run_ends, list_bytes, run_bytes, string_bytes, text_bytes, JsonValue, Number};

verus! {

/// The escape that a byte of a string calls for.
fn escape_for(byte: u8) -> (r: Option<CharEscape>)
    ensures
        r == escape_of_code(byte as u32),
{
    if byte == 0x22 {
        Some(CharEscape::Quote)
    } else if byte == 0x5c {
        Some(CharEscape::ReverseSolidus)
    } else if byte == 0x08 {
        Some(CharEscape::Backspace)
    } else if byte == 0x09 {
        Some(CharEscape::Tab)
    } else if byte == 0x0a {
        Some(CharEscape::LineFeed)
    } else if byte == 0x0c {
        Some(CharEscape::FormFeed)
    } else if byte == 0x0d {
        Some(CharEscape::CarriageReturn)
    } else if byte < 0x20 {
        Some(CharEscape::AsciiControl(byte))
    } else {
        None
    }
}

/// The first byte of `bytes` that calls for an escape, with its position.
fn find_escape(bytes: &[u8]) -> (r: Option<(usize, CharEscape)>)
    ensures
        match r {
            Some((at, escape)) => {
                &&& at < bytes@.len()
                &&& escape_of_code(bytes@[at as int] as u32) == Some(escape)
                &&& forall|i: int| 0 <= i < at ==> escape_of_code(#[trigger] bytes@[i] as u32) is None
            },
            None => forall|i: int|
                0 <= i < bytes@.len() ==> escape_of_code(#[trigger] bytes@[i] as u32) is None,
        },
{
    let mut at: usize = 0;
    while at < bytes.len()
        invariant
            at <= bytes.len(),
            forall|i: int| 0 <= i < at ==> escape_of_code(#[trigger] bytes@[i] as u32) is None,
        decreases bytes.len() - at,
    {
        match escape_for(bytes[at]) {
            Some(escape) => {
                return Some((at, escape));
            },
            None => {},
        }
        at += 1;
    }
    None
}

/// A text whose UTF-8 bytes call for no escape holds no character that does.
proof fn lemma_escape_free(text: Seq<char>)
    requires
        forall|i: int|
            0 <= i < encode_utf8(text).len() ==> escape_of_code(
                #[trigger] encode_utf8(text)[i] as u32,
            ) is None,
    ensures
        escape_free(text),
{
    assert forall|j: int| 0 <= j < text.len() implies escape_of(#[trigger] text[j]) is None by {
        let c = text[j];
        if escape_of(c) is Some {
            let byte = (c as u32) as u8;
            lemma_ascii_byte_in_utf8(text, byte);
            let i = choose|i: int| 0 <= i < encode_utf8(text).len() && encode_utf8(text)[i] == byte;
            assert(escape_of_code(encode_utf8(text)[i] as u32) is None);
        }
    }
}

/// What the scan has found, in characters: `text` is the run before the
/// byte at `at`, the character that this byte is, and what follows it.
proof fn lemma_split_at_escape(text: Seq<char>, run: Seq<char>, tail: Seq<char>, at: int)
    requires
        0 <= at < encode_utf8(text).len(),
        encode_utf8(run) == encode_utf8(text).subrange(0, at),
        encode_utf8(tail) == encode_utf8(text).subrange(at, encode_utf8(text).len() as int),
        encode_utf8(text)[at] < 0x80,
        forall|i: int| 0 <= i < at ==> escape_of_code(#[trigger] encode_utf8(text)[i] as u32) is None,
    ensures
        text == run + tail,
        tail.len() > 0,
        tail[0] as u32 == encode_utf8(text)[at] as u32,
        escape_free(run),
        encode_utf8(tail.drop_first()) == encode_utf8(tail).subrange(
            1,
            encode_utf8(tail).len() as int,
        ),
        is_char_boundary(encode_utf8(tail), 1),
{
    let bytes = encode_utf8(text);
    lemma_encode_concat(run, tail);
    assert(encode_utf8(run) + encode_utf8(tail) =~= bytes);
    lemma_encode_injective(run + tail, text);
    assert(encode_utf8(tail)[0] == bytes[at]);
    assert(tail.len() > 0);
    let c = tail[0];
    char_is_scalar(c);
    lemma_scalar_bytes(c as u32);
    assert(encode_utf8(tail) == encode_scalar(c as u32) + encode_utf8(tail.drop_first()));
    assert(encode_scalar(c as u32)[0] == bytes[at]);
    assert((c as u32) < 0x80);
    assert(encode_utf8(tail.drop_first()) =~= encode_utf8(tail).subrange(
        1,
        encode_utf8(tail).len() as int,
    ));
    assert forall|i: int| 0 <= i < encode_utf8(run).len() implies escape_of_code(
        #[trigger] encode_utf8(run)[i] as u32,
    ) is None by {
        assert(encode_utf8(run)[i] == bytes[i]);
    }
    lemma_escape_free(run);
    encode_utf8_valid_utf8(tail);
    encode_utf8_valid_utf8(tail.drop_first());
    reveal_with_fuel(is_char_boundary, 2);
}

/// Whether the value holds a floating-point number somewhere.
pub fn holds_float(value: &JsonValue) -> (r: bool)
    ensures
        r == has_float(value@),
    decreases value,
{
    match value {
        JsonValue::Number(Number::Float) => true,
        JsonValue::Array(items) => {
            let ghost list = value@->List_0;
            let mut i: usize = 0;
            while i < items.len()
                invariant
                    i <= items.len(),
                    list == value@->List_0,
                    list.len() == items.len(),
                    forall|j: int| 0 <= j < items.len() ==> #[trigger] list[j] == items[j]@,
                    forall|j: int| 0 <= j < i ==> !has_float(#[trigger] list[j]),
                    *value == JsonValue::Array(*items),
                decreases items.len() - i,
            {
                if holds_float(&items[i]) {
                    assert(has_float(list[i as int]));
                    return true;
                }
                i += 1;
            }
            false
        },
        JsonValue::Object(members) => {
            let ghost dict = value@->Dict_0;
            let mut i: usize = 0;
            while i < members.len()
                invariant
                    i <= members.len(),
                    dict == value@->Dict_0,
                    dict.len() == members.len(),
                    forall|j: int|
                        0 <= j < members.len() ==> (#[trigger] dict[j]).value == members[j].value@,
                    forall|j: int| 0 <= j < i ==> !has_float((#[trigger] dict[j]).value),
                    *value == JsonValue::Object(*members),
                decreases members.len() - i,
            {
                if holds_float(&members[i].value) {
                    assert(has_float(dict[i as int].value));
                    return true;
                }
                i += 1;
            }
            false
        },
        _ => false,
    }
}

/// The session `around` with one more object open, which holds `members`
/// and collects into `slot`.
spec fn within(around: State, members: Map<Seq<u8>, Seq<u8>>, slot: Slot) -> State {
    State { frames: around.frames.push(Frame { members, slot }), sink: around.sink }
}

/// What the events of one member do to the object that is open.
proof fn lemma_member_events(
    around: State,
    members: Map<Seq<u8>, Seq<u8>>,
    slot: Slot,
    key: Seq<u8>,
    value: Seq<u8>,
)
    ensures
        around.open() == within(around, Map::empty(), Slot::Key(Seq::empty())),
        key_begun(within(around, members, slot).frames) == within(
            around,
            members,
            Slot::Key(Seq::empty()),
        ).frames,
        within(around, members, Slot::Key(Seq::empty())).emit(key) == within(
            around,
            members,
            Slot::Key(key),
        ),
        key_ended(within(around, members, Slot::Key(key)).frames) == within(
            around,
            members,
            Slot::Value { key, value: Seq::empty() },
        ).frames,
        within(around, members, Slot::Value { key, value: Seq::empty() }).emit(value) == within(
            around,
            members,
            Slot::Value { key, value },
        ),
        value_ended(within(around, members, Slot::Value { key, value }).frames) == within(
            around,
            members.insert(key, value),
            Slot::Value { key: Seq::empty(), value: Seq::empty() },
        ).frames,
        within(around, members, slot).close() == around,
{
    let empty = Seq::<u8>::empty();
    assert(empty + key =~= key);
    assert(empty + value =~= value);
    assert(within(around, members, Slot::Key(empty)).emit(key).frames =~= within(
        around,
        members,
        Slot::Key(key),
    ).frames);
    assert(within(around, members, Slot::Value { key, value: empty }).emit(value).frames =~= within(
        around,
        members,
        Slot::Value { key, value },
    ).frames);
    assert(key_begun(within(around, members, slot).frames) =~= within(
        around,
        members,
        Slot::Key(empty),
    ).frames);
    assert(key_ended(within(around, members, Slot::Key(key)).frames) =~= within(
        around,
        members,
        Slot::Value { key, value: empty },
    ).frames);
    assert(value_ended(within(around, members, Slot::Value { key, value }).frames) =~= within(
        around,
        members.insert(key, value),
        Slot::Value { key: empty, value: empty },
    ).frames);
    assert(within(around, members, slot).close().frames =~= around.frames);
}

impl CanonicalFormatter {
    /// Writes a string: a quote, each run of characters that call for no
    /// escape as one fragment, each of the others as its escape, and a quote.
    pub fn write_str(&mut self, out: &mut Vec<u8>, value: &str)
        ensures
            state_of(final(self)@, final(out)@) == state_of(old(self)@, old(out)@).emit(
                string_bytes(value@),
            ),
    {
        let ghost begin = state_of(old(self)@, old(out)@);
        let ghost mut done: Seq<u8> = seq![34u8];
        self.begin_string(out);
        let mut rest: &str = value;
        loop
            invariant
                state_of(self@, out@) == begin.emit(done),
                done + text_bytes(rest@) == seq![34u8] + text_bytes(value@),
            ensures
                escape_free(rest@),
            decreases rest@.len(),
        {
            let ghost text = rest@;
            match find_escape(rest.as_bytes()) {
                Some((at, escape)) => {
                    proof {
                        encode_utf8_valid_utf8(text);
                        is_char_boundary_iff_is_leading_byte(encode_utf8(text), at as int);
                    }
                    let (run, tail) = rest.split_at(at);
                    proof {
                        lemma_split_at_escape(text, run@, tail@, at as int);
                        lemma_run_ends(text, run@.len() as int);
                        assert(text.take(run@.len() as int) =~= run@);
                    }
                    if !run.is_empty() {
                        self.write_string_fragment(out, run);
                    }
                    self.write_char_escape(out, escape);
                    let (_, after) = tail.split_at(1);
                    proof {
                        lemma_encode_injective(after@, tail@.drop_first());
                        assert(text.skip(run@.len() as int + 1) =~= after@);
                        lemma_emit_nothing(begin.emit(done));
                        lemma_emit_emit(begin.emit(done), run_bytes(run@), escape.bytes());
                        lemma_emit_emit(begin, done, run_bytes(run@) + escape.bytes());
                        done = done + (run_bytes(run@) + escape.bytes());
                        assert(done + text_bytes(after@) =~= seq![34u8] + text_bytes(value@));
                    }
                    rest = after;
                },
                None => {
                    proof {
                        lemma_escape_free(text);
                    }
                    break ;
                },
            }
        }
        proof {
            lemma_run_ends(rest@, rest@.len() as int);
            lemma_emit_nothing(begin.emit(done));
        }
        if !rest.is_empty() {
            self.write_string_fragment(out, rest);
        }
        self.end_string(out);
        proof {
            lemma_emit_emit(begin.emit(done), run_bytes(rest@), seq![34u8]);
            lemma_emit_emit(begin, done, run_bytes(rest@) + seq![34u8]);
            assert(done + (run_bytes(rest@) + seq![34u8]) =~= string_bytes(value@));
        }
    }

    /// Walks over a value that holds no floating-point number, and writes it.
    #[verifier::loop_isolation(false)]
    fn walk(&mut self, out: &mut Vec<u8>, value: &JsonValue) -> (r: Result<(), EncodeError>)
        requires
            !has_float(value@),
        ensures
            r is Ok,
            state_of(final(self)@, final(out)@) == state_of(old(self)@, old(out)@).emit(
                canonical(value@),
            ),
        decreases value,
    {
        let ghost begin = state_of(old(self)@, old(out)@);
        match value {
            JsonValue::Null => {
                self.write_null(out);
            },
            JsonValue::Bool(b) => {
                self.write_bool(out, *b);
            },
            JsonValue::Number(number) => match number {
                Number::PosInt(n) => {
                    self.write_u64(out, *n);
                },
                Number::NegInt(n) => {
                    self.write_i64(out, *n);
                },
                Number::Float => {
                    unreached::<()>();
                },
            },
            JsonValue::String(text) => {
                self.write_str(out, text.as_str());
            },
            JsonValue::Array(items) => {
                let ghost list = value@->List_0;
                self.begin_array(out);
                let mut i: usize = 0;
                while i < items.len()
                    invariant
                        i <= items.len(),
                        state_of(self@, out@) == begin.emit(
                            seq![91u8] + list_bytes(list, i as nat),
                        ),
                    decreases items.len() - i,
                {
                    let ghost before = state_of(self@, out@);
                    self.begin_array_value(out, i == 0);
                    assert(has_float(list[i as int]) ==> has_float(value@));
                    self.walk(out, &items[i])?;
                    self.end_array_value(out);
                    proof {
                        let item = canonical(list[i as int]);
                        let sep = separator(i == 0);
                        lemma_emit_emit(before, sep, item);
                        lemma_emit_emit(begin, seq![91u8] + list_bytes(list, i as nat), sep + item);
                        assert(seq![91u8] + list_bytes(list, i as nat) + (sep + item) =~= seq![91u8]
                            + list_bytes(list, (i + 1) as nat));
                    }
                    i += 1;
                }
                self.end_array(out);
                proof {
                    lemma_emit_emit(
                        begin,
                        seq![91u8] + list_bytes(list, list.len()),
                        seq![93u8],
                    );
                }
            },
            JsonValue::Object(members) => {
                let ghost dict = value@->Dict_0;
                let ghost around = begin.emit(seq![123u8]);
                let ghost empty = Seq::<u8>::empty();
                self.begin_object(out);
                proof {
                    lemma_member_events(around, Map::empty(), Slot::Key(empty), empty, empty);
                }
                let mut i: usize = 0;
                while i < members.len()
                    invariant
                        i <= members.len(),
                        state_of(self@, out@) == within(
                            around,
                            dict_members(dict, i as nat),
                            if i == 0 {
                                Slot::Key(empty)
                            } else {
                                Slot::Value { key: empty, value: empty }
                            },
                        ),
                    decreases members.len() - i,
                {
                    let ghost collected = dict_members(dict, i as nat);
                    let ghost slot = if i == 0 {
                        Slot::Key(empty)
                    } else {
                        Slot::Value { key: empty, value: empty }
                    };
                    let ghost key = string_bytes(dict[i as int].name);
                    let ghost encoded = canonical(dict[i as int].value);
                    proof {
                        lemma_member_events(around, collected, slot, key, encoded);
                    }
                    self.begin_object_key(i == 0)?;
                    self.write_str(out, members[i].name.as_str());
                    self.end_object_key()?;
                    self.begin_object_value();
                    assert(has_float(dict[i as int].value) ==> has_float(value@));
                    self.walk(out, &members[i].value)?;
                    self.end_object_value()?;
                    i += 1;
                }
                let ghost collected = dict_members(dict, dict.len());
                proof {
                    lemma_member_events(
                        around,
                        collected,
                        if i == 0 {
                            Slot::Key(empty)
                        } else {
                            Slot::Value { key: empty, value: empty }
                        },
                        empty,
                        empty,
                    );
                    lemma_emit_emit(begin, seq![123u8], members_bytes(collected).push(125u8));
                    assert(seq![123u8] + members_bytes(collected).push(125u8) =~= canonical(value@));
                }
                self.end_object(out)?;
            },
        }
        Ok(())
    }

    /// Writes `value`: walks over it and gives each event of the walk to
    /// this formatter. Fails, and writes nothing, where the value holds a
    /// floating-point number.
    pub fn write_value(&mut self, out: &mut Vec<u8>, value: &JsonValue) -> (r: Result<
        (),
        EncodeError,
    >)
        ensures
            match r {
                Ok(()) => {
                    &&& !has_float(value@)
                    &&& state_of(final(self)@, final(out)@) == state_of(
                        old(self)@,
                        old(out)@,
                    ).emit(canonical(value@))
                },
                Err(e) => {
                    &&& e is UnsupportedValue
                    &&& has_float(value@)
                    &&& final(self)@ == old(self)@
                    &&& final(out)@ == old(out)@
                },
            },
    {
        if holds_float(value) {
            self.write_f64()
        } else {
            self.walk(out, value)
        }
    }

    /// Writes a value that came in as a fragment of JSON text: a formatter
    /// of its own writes it to where this one's output goes. Fails, and
    /// writes nothing, where the value holds a floating-point number.
    pub fn write_fragment_value(&mut self, out: &mut Vec<u8>, value: &JsonValue) -> (r: Result<
        (),
        EncodeError,
    >)
        ensures
            match r {
                Ok(()) => {
                    &&& !has_float(value@)
                    &&& state_of(final(self)@, final(out)@) == state_of(
                        old(self)@,
                        old(out)@,
                    ).emit(canonical(value@))
                },
                Err(e) => {
                    &&& e is UnsupportedValue
                    &&& has_float(value@)
                    &&& final(self)@ == old(self)@
                    &&& final(out)@ == old(out)@
                },
            },
    {
        let mut fresh = CanonicalFormatter::new();
        fresh.write_value(self.writer(out), value)
    }

    /// Writes a fragment of JSON text: never as it stands, but read as a
    /// value and encoded anew, so that its strings are normalized and the
    /// members of its objects sorted. Fails, and writes nothing, where the
    /// fragment is no JSON text or holds a floating-point number.
    pub fn write_raw_fragment(&mut self, out: &mut Vec<u8>, fragment: &str) -> (r: Result<
        (),
        EncodeError,
    >)
        ensures
            match r {
                Ok(()) => {
                    &&& parsed(fragment@) matches Some(json)
                    &&& !has_float(json)
                    &&& state_of(final(self)@, final(out)@) == state_of(
                        old(self)@,
                        old(out)@,
                    ).emit(canonical(json))
                },
                Err(e) => {
                    &&& final(self)@ == old(self)@
                    &&& final(out)@ == old(out)@
                    &&& match e {
                        EncodeError::RawFragment(_) => parsed(fragment@) is None,
                        EncodeError::UnsupportedValue => parsed(fragment@) matches Some(json)
                            && has_float(json),
                        EncodeError::UsageViolation => false,
                    }
                },
            },
    {
        match parse(fragment) {
            Ok(value) => self.write_fragment_value(out, &value),
            Err(e) => Err(EncodeError::RawFragment(e)),
        }
    }
}

/// The canonical encoding of `value`. Fails where the value holds a
/// floating-point number.
pub fn encode(value: &JsonValue) -> (r: Result<Vec<u8>, EncodeError>)
    ensures
        match r {
            Ok(bytes) => !has_float(value@) && bytes@ == canonical(value@),
            Err(e) => e is UnsupportedValue && has_float(value@),
        },
{
    let mut formatter = CanonicalFormatter::new();
    let mut out: Vec<u8> = Vec::new();
    formatter.write_value(&mut out, value)?;
    assert(out@ =~= canonical(value@));
    Ok(out)
}

} // verus!
