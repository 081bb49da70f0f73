//! The canonical formatter: it takes the events of a walk over a JSON value
//! (scalars, and the begin and end of strings, arrays, objects and their
//! members) and writes the canonical encoding.
//!
//! Outside any object the bytes go straight to the output. While an object
//! is open they are collected, key by key and value by value; when it is
//! closed its members are written in ascending byte order of their keys.

use vstd::prelude::*;
use vstd::utf8::encode_utf8;
use crate::compact;
use crate::compact::{bool_bytes, byte_array_bytes, decimal, null_bytes, separator};
use crate::escape::CharEscape;
use crate::members::{key_order, Members};
use crate::normalize::{nfc, normalize};
use crate::number::{float_shaped, is_float_shaped};
use crate::state::{fresh_frame, key_begun, key_ended, members_bytes, members_prefix, state_of, value_ended, lemma_emit_nothing, Frame, Slot};

verus! {

/// Why the formatter refused an event.
#[derive(Debug)]
pub enum EncodeError {
    /// A member of an object was begun or ended while no object was open.
    UsageViolation,
    /// A floating-point number, or a number written with a decimal point or
    /// an exponent.
    UnsupportedValue,
    /// A raw fragment that is no JSON text, with what the parser said of it.
    RawFragment(serde_json::Error),
}

/// What an open object is collecting: the key of a member, or its value.
#[derive(Debug)]
pub enum Collecting {
    Key(Vec<u8>),
    Value { key: Vec<u8>, value: Vec<u8> },
}

impl View for Collecting {
    type V = Slot;

    open spec fn view(&self) -> Slot {
        match self {
            Collecting::Key(key) => Slot::Key(key@),
            Collecting::Value { key, value } => Slot::Value { key: key@, value: value@ },
        }
    }
}

impl Default for Collecting {
    fn default() -> (r: Self)
        ensures
            r@ == Slot::Key(Seq::empty()),
    {
        Collecting::Key(Vec::new())
    }
}

/// An object that is being built: its complete members, and the key or
/// value that is being collected.
#[derive(Debug)]
pub struct Object {
    obj: Members,
    state: Collecting,
}

impl View for Object {
    type V = Frame;

    closed spec fn view(&self) -> Frame {
        Frame { members: self.obj@, slot: self.state@ }
    }
}

impl Default for Object {
    fn default() -> (r: Self)
        ensures
            r@ == fresh_frame(),
    {
        Object { obj: Members::new(), state: Collecting::default() }
    }
}

/// A formatter that produces canonical JSON. One formatter serves one document.
#[derive(Debug)]
pub struct CanonicalFormatter {
    object_stack: Vec<Object>,
}

impl View for CanonicalFormatter {
    type V = Seq<Frame>;

    /// The open objects, outermost first.
    closed spec fn view(&self) -> Seq<Frame> {
        Seq::new(self.object_stack.len() as nat, |i: int| self.object_stack[i]@)
    }
}

impl Default for CanonicalFormatter {
    fn default() -> (r: Self)
        ensures
            r@ == Seq::<Frame>::empty(),
    {
        let r = CanonicalFormatter { object_stack: Vec::new() };
        assert(r@ =~= Seq::<Frame>::empty());
        r
    }
}

impl CanonicalFormatter {
    /// A formatter with no object open.
    pub fn new() -> (r: Self)
        ensures
            r@ == Seq::<Frame>::empty(),
    {
        Self::default()
    }

    /// The number of objects that are open.
    pub fn depth(&self) -> (n: usize)
        ensures
            n == self@.len(),
    {
        self.object_stack.len()
    }

    /// Whether the innermost open object is collecting the key of a member.
    pub fn is_collecting_key(&self) -> (r: bool)
        ensures
            r == (self@.len() > 0 && self@.last().slot is Key),
    {
        let n = self.object_stack.len();
        n > 0 && match self.object_stack[n - 1].state {
            Collecting::Key(_) => true,
            Collecting::Value { .. } => false,
        }
    }

    /// Whether the innermost open object is collecting the value of a member.
    pub fn is_collecting_value(&self) -> (r: bool)
        ensures
            r == (self@.len() > 0 && self@.last().slot is Value),
    {
        let n = self.object_stack.len();
        n > 0 && match self.object_stack[n - 1].state {
            Collecting::Key(_) => false,
            Collecting::Value { .. } => true,
        }
    }

    /// The buffer that output goes to: the key or the value that the
    /// innermost open object is collecting, or `out` where no object is open.
    pub(crate) fn writer<'a>(&'a mut self, out: &'a mut Vec<u8>) -> (w: &'a mut Vec<u8>)
        ensures
            w@ == state_of(old(self)@, old(out)@).target(),
            final(self)@ == state_of(old(self)@, old(out)@).with_target(final(w)@).frames,
            final(out)@ == state_of(old(self)@, old(out)@).with_target(final(w)@).sink,
    {
        let n = self.object_stack.len();
        if n == 0 {
            out
        } else {
            let object = &mut self.object_stack[n - 1];
            match &mut object.state {
                Collecting::Key(key) => key,
                Collecting::Value { value, .. } => value,
            }
        }
    }

    /// The innermost open object.
    pub fn obj_mut(&mut self) -> (r: Result<&mut Object, EncodeError>)
        ensures
            match r {
                Ok(object) => {
                    &&& old(self)@.len() > 0
                    &&& object@ == old(self)@.last()
                    &&& final(self)@ == old(self)@.update(old(self)@.len() - 1, final(object)@)
                },
                Err(e) => {
                    &&& old(self)@.len() == 0
                    &&& e is UsageViolation
                    &&& final(self)@ == old(self)@
                },
            },
    {
        let n = self.object_stack.len();
        if n == 0 {
            Err(EncodeError::UsageViolation)
        } else {
            let object = &mut self.object_stack[n - 1];
            Ok(object)
        }
    }

    /// Writes `null`.
    pub fn write_null(&mut self, out: &mut Vec<u8>)
        ensures
            state_of(final(self)@, final(out)@) == state_of(old(self)@, old(out)@).emit(
                null_bytes(),
            ),
    {
        compact::write_null(self.writer(out))
    }

    /// Writes `true` or `false`.
    pub fn write_bool(&mut self, out: &mut Vec<u8>, value: bool)
        ensures
            state_of(final(self)@, final(out)@) == state_of(old(self)@, old(out)@).emit(
                bool_bytes(value),
            ),
    {
        compact::write_bool(self.writer(out), value)
    }

    /// Writes a signed 8-bit integer in decimal notation.
    pub fn write_i8(&mut self, out: &mut Vec<u8>, value: i8)
        ensures
            state_of(final(self)@, final(out)@) == state_of(old(self)@, old(out)@).emit(
                decimal(value as int),
            ),
    {
        compact::write_i8(self.writer(out), value)
    }

    /// Writes a signed 16-bit integer in decimal notation.
    pub fn write_i16(&mut self, out: &mut Vec<u8>, value: i16)
        ensures
            state_of(final(self)@, final(out)@) == state_of(old(self)@, old(out)@).emit(
                decimal(value as int),
            ),
    {
        compact::write_i16(self.writer(out), value)
    }

    /// Writes a signed 32-bit integer in decimal notation.
    pub fn write_i32(&mut self, out: &mut Vec<u8>, value: i32)
        ensures
            state_of(final(self)@, final(out)@) == state_of(old(self)@, old(out)@).emit(
                decimal(value as int),
            ),
    {
        compact::write_i32(self.writer(out), value)
    }

    /// Writes a signed 64-bit integer in decimal notation.
    pub fn write_i64(&mut self, out: &mut Vec<u8>, value: i64)
        ensures
            state_of(final(self)@, final(out)@) == state_of(old(self)@, old(out)@).emit(
                decimal(value as int),
            ),
    {
        compact::write_i64(self.writer(out), value)
    }

    /// Writes a signed 128-bit integer in decimal notation.
    pub fn write_i128(&mut self, out: &mut Vec<u8>, value: i128)
        ensures
            state_of(final(self)@, final(out)@) == state_of(old(self)@, old(out)@).emit(
                decimal(value as int),
            ),
    {
        compact::write_i128(self.writer(out), value)
    }

    /// Writes an unsigned 8-bit integer in decimal notation.
    pub fn write_u8(&mut self, out: &mut Vec<u8>, value: u8)
        ensures
            state_of(final(self)@, final(out)@) == state_of(old(self)@, old(out)@).emit(
                decimal(value as int),
            ),
    {
        compact::write_u8(self.writer(out), value)
    }

    /// Writes an unsigned 16-bit integer in decimal notation.
    pub fn write_u16(&mut self, out: &mut Vec<u8>, value: u16)
        ensures
            state_of(final(self)@, final(out)@) == state_of(old(self)@, old(out)@).emit(
                decimal(value as int),
            ),
    {
        compact::write_u16(self.writer(out), value)
    }

    /// Writes an unsigned 32-bit integer in decimal notation.
    pub fn write_u32(&mut self, out: &mut Vec<u8>, value: u32)
        ensures
            state_of(final(self)@, final(out)@) == state_of(old(self)@, old(out)@).emit(
                decimal(value as int),
            ),
    {
        compact::write_u32(self.writer(out), value)
    }

    /// Writes an unsigned 64-bit integer in decimal notation.
    pub fn write_u64(&mut self, out: &mut Vec<u8>, value: u64)
        ensures
            state_of(final(self)@, final(out)@) == state_of(old(self)@, old(out)@).emit(
                decimal(value as int),
            ),
    {
        compact::write_u64(self.writer(out), value)
    }

    /// Writes an unsigned 128-bit integer in decimal notation.
    pub fn write_u128(&mut self, out: &mut Vec<u8>, value: u128)
        ensures
            state_of(final(self)@, final(out)@) == state_of(old(self)@, old(out)@).emit(
                decimal(value as int),
            ),
    {
        compact::write_u128(self.writer(out), value)
    }

    /// Writes a byte array as an array of decimal numbers.
    pub fn write_byte_array(&mut self, out: &mut Vec<u8>, value: &[u8])
        ensures
            state_of(final(self)@, final(out)@) == state_of(old(self)@, old(out)@).emit(
                byte_array_bytes(value@),
            ),
    {
        compact::write_byte_array(self.writer(out), value)
    }

    /// Begins a string: writes `"`.
    pub fn begin_string(&mut self, out: &mut Vec<u8>)
        ensures
            state_of(final(self)@, final(out)@) == state_of(old(self)@, old(out)@).emit(
                seq![34u8],
            ),
    {
        compact::begin_string(self.writer(out))
    }

    /// Ends a string: writes `"`.
    pub fn end_string(&mut self, out: &mut Vec<u8>)
        ensures
            state_of(final(self)@, final(out)@) == state_of(old(self)@, old(out)@).emit(
                seq![34u8],
            ),
    {
        compact::end_string(self.writer(out))
    }

    /// Begins an array: writes `[`.
    pub fn begin_array(&mut self, out: &mut Vec<u8>)
        ensures
            state_of(final(self)@, final(out)@) == state_of(old(self)@, old(out)@).emit(
                seq![91u8],
            ),
    {
        compact::begin_array(self.writer(out))
    }

    /// Ends an array: writes `]`.
    pub fn end_array(&mut self, out: &mut Vec<u8>)
        ensures
            state_of(final(self)@, final(out)@) == state_of(old(self)@, old(out)@).emit(
                seq![93u8],
            ),
    {
        compact::end_array(self.writer(out))
    }

    /// Begins a value of an array: writes a comma unless it is the first one.
    pub fn begin_array_value(&mut self, out: &mut Vec<u8>, first: bool)
        ensures
            state_of(final(self)@, final(out)@) == state_of(old(self)@, old(out)@).emit(
                separator(first),
            ),
    {
        compact::begin_array_value(self.writer(out), first)
    }

    /// Ends a value of an array: writes nothing.
    pub fn end_array_value(&mut self, out: &mut Vec<u8>)
        ensures
            final(self)@ == old(self)@,
            final(out)@ == old(out)@,
    {
        compact::end_array_value(self.writer(out));
        proof {
            lemma_emit_nothing(state_of(old(self)@, old(out)@));
        }
    }

    /// Refuses a 32-bit floating-point number, whatever its value.
    pub fn write_f32(&mut self) -> (r: Result<(), EncodeError>)
        ensures
            r matches Err(EncodeError::UnsupportedValue),
            final(self)@ == old(self)@,
    {
        Err(EncodeError::UnsupportedValue)
    }

    /// Refuses a 64-bit floating-point number, whatever its value.
    pub fn write_f64(&mut self) -> (r: Result<(), EncodeError>)
        ensures
            r matches Err(EncodeError::UnsupportedValue),
            final(self)@ == old(self)@,
    {
        Err(EncodeError::UnsupportedValue)
    }

    /// Writes a number that was rendered as text, as it is, unless the text
    /// has a decimal point or an exponent: such a number is refused.
    pub fn write_number_str(&mut self, out: &mut Vec<u8>, value: &str) -> (r: Result<(), EncodeError>)
        ensures
            match r {
                Ok(()) => {
                    &&& !float_shaped(value@)
                    &&& state_of(final(self)@, final(out)@) == state_of(
                        old(self)@,
                        old(out)@,
                    ).emit(encode_utf8(value@))
                },
                Err(e) => {
                    &&& e is UnsupportedValue
                    &&& float_shaped(value@)
                    &&& final(self)@ == old(self)@
                    &&& final(out)@ == old(out)@
                },
            },
    {
        if is_float_shaped(value) {
            Err(EncodeError::UnsupportedValue)
        } else {
            compact::write_number_str(self.writer(out), value);
            Ok(())
        }
    }

    /// Writes a character that a JSON writer would ordinarily escape: a
    /// quote or a backslash with a backslash before it, any other as it is.
    pub fn write_char_escape(&mut self, out: &mut Vec<u8>, char_escape: CharEscape)
        ensures
            state_of(final(self)@, final(out)@) == state_of(old(self)@, old(out)@).emit(
                char_escape.bytes(),
            ),
    {
        let ghost target = state_of(old(self)@, old(out)@).target();
        let writer = self.writer(out);
        match char_escape {
            CharEscape::Quote | CharEscape::ReverseSolidus => {
                writer.push(0x5c);
            },
            _ => {},
        }
        let byte: u8 = match char_escape {
            CharEscape::Quote => 0x22,
            CharEscape::ReverseSolidus => 0x5c,
            CharEscape::Solidus => 0x2f,
            CharEscape::Backspace => 0x08,
            CharEscape::FormFeed => 0x0c,
            CharEscape::LineFeed => 0x0a,
            CharEscape::CarriageReturn => 0x0d,
            CharEscape::Tab => 0x09,
            CharEscape::AsciiControl(byte) => byte,
        };
        writer.push(byte);
        assert(writer@ =~= target + char_escape.bytes());
    }

    /// Writes a piece of a string that holds no character to escape: its
    /// Normalization Form C, in UTF-8.
    pub fn write_string_fragment(&mut self, out: &mut Vec<u8>, fragment: &str)
        ensures
            state_of(final(self)@, final(out)@) == state_of(old(self)@, old(out)@).emit(
                encode_utf8(nfc(fragment@)),
            ),
    {
        let normalized = normalize(fragment);
        append(self.writer(out), normalized.as_str().as_bytes());
    }

    /// Begins the key of a member: the innermost open object starts to
    /// collect a new key. Fails where no object is open.
    pub fn begin_object_key(&mut self, _first: bool) -> (r: Result<(), EncodeError>)
        ensures
            match r {
                Ok(()) => old(self)@.len() > 0 && final(self)@ == key_begun(old(self)@),
                Err(e) => e is UsageViolation && old(self)@.len() == 0 && final(self)@ == old(
                    self,
                )@,
            },
    {
        let object = self.obj_mut()?;
        object.state = Collecting::Key(Vec::new());
        Ok(())
    }

    /// Ends the key of a member: what the innermost open object has
    /// collected is the key, and it starts to collect the member's value.
    /// Fails where no object is open.
    pub fn end_object_key(&mut self) -> (r: Result<(), EncodeError>)
        requires
            old(self)@.len() > 0 ==> old(self)@.last().slot is Key,
        ensures
            match r {
                Ok(()) => old(self)@.len() > 0 && final(self)@ == key_ended(old(self)@),
                Err(e) => e is UsageViolation && old(self)@.len() == 0 && final(self)@ == old(
                    self,
                )@,
            },
    {
        let object = self.obj_mut()?;
        let mut taken: Vec<u8> = Vec::new();
        if let Collecting::Key(key) = &mut object.state {
            core::mem::swap(key, &mut taken);
        }
        object.state = Collecting::Value { key: taken, value: Vec::new() };
        Ok(())
    }

    /// Begins the value of a member. Nothing is left to do: the innermost
    /// open object is collecting the value already.
    pub fn begin_object_value(&mut self)
        ensures
            final(self)@ == old(self)@,
    {
    }

    /// Ends the value of a member: the innermost open object takes the
    /// member with the key and the value that it has collected. A member
    /// that it held under the same key is replaced. Fails where no object is
    /// open.
    pub fn end_object_value(&mut self) -> (r: Result<(), EncodeError>)
        requires
            old(self)@.len() > 0 ==> old(self)@.last().slot is Value,
        ensures
            match r {
                Ok(()) => old(self)@.len() > 0 && final(self)@ == value_ended(old(self)@),
                Err(e) => e is UsageViolation && old(self)@.len() == 0 && final(self)@ == old(
                    self,
                )@,
            },
    {
        let object = self.obj_mut()?;
        let mut taken_key: Vec<u8> = Vec::new();
        let mut taken_value: Vec<u8> = Vec::new();
        if let Collecting::Value { key, value } = &mut object.state {
            core::mem::swap(key, &mut taken_key);
            core::mem::swap(value, &mut taken_value);
        }
        object.obj.insert(taken_key, taken_value);
        Ok(())
    }

    /// Opens an object: writes `{`, then starts to collect the members of
    /// the new object.
    pub fn begin_object(&mut self, out: &mut Vec<u8>)
        ensures
            state_of(final(self)@, final(out)@) == state_of(old(self)@, old(out)@).emit(
                seq![123u8],
            ).open(),
    {
        compact::begin_object(self.writer(out));
        self.object_stack.push(Object::default());
        proof {
            let begun = state_of(old(self)@, old(out)@).emit(seq![123u8]);
            assert(self@ =~= begun.frames.push(fresh_frame()));
        }
    }

    /// Closes the innermost open object: writes its members in ascending
    /// byte order of their keys, then `}`. The bytes go where the bytes of
    /// any other value would go: to the next open object, or to `out`.
    pub fn end_object(&mut self, out: &mut Vec<u8>) -> (r: Result<(), EncodeError>)
        ensures
            match r {
                Ok(()) => {
                    &&& old(self)@.len() > 0
                    &&& state_of(final(self)@, final(out)@) == state_of(
                        old(self)@,
                        old(out)@,
                    ).close().emit(members_bytes(old(self)@.last().members).push(125u8))
                },
                Err(e) => {
                    &&& e is UsageViolation
                    &&& old(self)@.len() == 0
                    &&& final(self)@ == old(self)@
                    &&& final(out)@ == old(out)@
                },
            },
    {
        let Some(object) = self.object_stack.pop() else {
            return Err(EncodeError::UsageViolation);
        };
        assert(self@ =~= old(self)@.drop_last());
        let ghost closed = state_of(old(self)@, old(out)@).close();
        let ghost m = object@.members;
        let mut first = true;
        let writer = self.writer(out);
        let n = object.obj.len();
        let mut i: usize = 0;
        while i < n
            invariant
                i <= n,
                n == key_order(m).len(),
                m == object.obj@,
                first == (i == 0),
                writer@ == closed.target() + members_prefix(m, i as int),
            decreases n - i,
        {
            compact::begin_object_key(writer, first);
            append(writer, object.obj.key(i).as_slice());
            compact::end_object_key(writer);
            compact::begin_object_value(writer);
            append(writer, object.obj.value(i).as_slice());
            compact::end_object_value(writer);
            first = false;
            i += 1;
        }
        compact::end_object(writer);
        proof {
            assert(writer@ =~= closed.target() + members_bytes(m).push(125u8));
        }
        Ok(())
    }
}

/// Appends `bytes` to `buffer`.
fn append(buffer: &mut Vec<u8>, bytes: &[u8])
    ensures
        final(buffer)@ == old(buffer)@ + bytes@,
{
    buffer.extend_from_slice(bytes);
    assert(buffer@ =~= old(buffer)@ + bytes@);
}

} // verus!
