//! The mathematical model of a serialization session: the stack of open
//! objects, and the bytes that have reached the output.

use vstd::prelude::*;
use crate::members::key_order;
use crate::compact::separator;

verus! {

/// What the innermost open object is collecting.
pub enum Slot {
    /// The bytes of the member's key.
    Key(Seq<u8>),
    /// The bytes of the member's value; its key is complete.
    Value { key: Seq<u8>, value: Seq<u8> },
}

impl Slot {
    /// The buffer that output is collected in.
    pub open spec fn buffer(self) -> Seq<u8> {
        match self {
            Slot::Key(key) => key,
            Slot::Value { value, .. } => value,
        }
    }

    /// The slot with `buffer` in place of the buffer that output is collected in.
    pub open spec fn with_buffer(self, buffer: Seq<u8>) -> Slot {
        match self {
            Slot::Key(_) => Slot::Key(buffer),
            Slot::Value { key, .. } => Slot::Value { key, value: buffer },
        }
    }
}

/// One open object: the members that are complete, and the one in progress.
pub struct Frame {
    /// Encoded key to encoded value, for each complete member.
    pub members: Map<Seq<u8>, Seq<u8>>,
    pub slot: Slot,
}

/// The frame of an object that has just been opened.
pub open spec fn fresh_frame() -> Frame {
    Frame { members: Map::empty(), slot: Slot::Key(Seq::empty()) }
}

/// The first `n` members of `m` in ascending key order, each as key, colon
/// and value, with commas between them.
pub open spec fn members_prefix(m: Map<Seq<u8>, Seq<u8>>, n: int) -> Seq<u8>
    decreases n,
{
    if n <= 0 {
        Seq::empty()
    } else {
        let key = key_order(m)[n - 1];
        members_prefix(m, n - 1) + separator(n == 1) + key + seq![58u8] + m[key]
    }
}

/// All members of `m` in ascending key order, each as key, colon and value,
/// with commas between them.
pub open spec fn members_bytes(m: Map<Seq<u8>, Seq<u8>>) -> Seq<u8> {
    members_prefix(m, key_order(m).len() as int)
}

/// The open objects with `frame` in place of the innermost one.
pub open spec fn set_top(frames: Seq<Frame>, frame: Frame) -> Seq<Frame> {
    frames.update(frames.len() - 1, frame)
}

/// The open objects with the innermost one collecting into `slot`.
pub open spec fn set_slot(frames: Seq<Frame>, slot: Slot) -> Seq<Frame> {
    set_top(frames, Frame { members: frames.last().members, slot })
}

/// The open objects after a key was begun: the innermost one collects a new key.
pub open spec fn key_begun(frames: Seq<Frame>) -> Seq<Frame> {
    set_slot(frames, Slot::Key(Seq::empty()))
}

/// The open objects after a key was ended: what the innermost one collected
/// is the key of the member, and it collects the member's value.
pub open spec fn key_ended(frames: Seq<Frame>) -> Seq<Frame> {
    set_slot(frames, Slot::Value { key: frames.last().slot.buffer(), value: Seq::empty() })
}

/// The open objects after a value was ended: the innermost one holds the
/// member, in place of any earlier member with the same key, and has
/// nothing left of it in its buffers.
pub open spec fn value_ended(frames: Seq<Frame>) -> Seq<Frame> {
    let top = frames.last();
    set_top(
        frames,
        Frame {
            members: top.members.insert(top.slot->Value_key, top.slot->Value_value),
            slot: Slot::Value { key: Seq::empty(), value: Seq::empty() },
        },
    )
}

/// A session: the open objects, outermost first, and the output so far.
pub struct State {
    pub frames: Seq<Frame>,
    pub sink: Seq<u8>,
}

/// The session with the given open objects and output.
pub open spec fn state_of(frames: Seq<Frame>, sink: Seq<u8>) -> State {
    State { frames, sink }
}

impl State {
    /// The bytes that output is appended to: the buffer of the innermost open
    /// object, or the output itself where no object is open.
    pub open spec fn target(self) -> Seq<u8> {
        if self.frames.len() == 0 {
            self.sink
        } else {
            self.frames.last().slot.buffer()
        }
    }

    /// The session with `buffer` in place of the bytes that output is appended to.
    pub open spec fn with_target(self, buffer: Seq<u8>) -> State {
        if self.frames.len() == 0 {
            State { frames: self.frames, sink: buffer }
        } else {
            State {
                frames: set_slot(self.frames, self.frames.last().slot.with_buffer(buffer)),
                sink: self.sink,
            }
        }
    }

    /// The session after `bytes` were written.
    pub open spec fn emit(self, bytes: Seq<u8>) -> State {
        self.with_target(self.target() + bytes)
    }

    /// The session after a new object was opened.
    pub open spec fn open(self) -> State {
        State { frames: self.frames.push(fresh_frame()), sink: self.sink }
    }

    /// The session without its innermost open object.
    pub open spec fn close(self) -> State {
        State { frames: self.frames.drop_last(), sink: self.sink }
    }
}

/// Writing nothing changes nothing.
pub proof fn lemma_emit_nothing(s: State)
    ensures
        s.emit(Seq::empty()) == s,
{
    assert(s.target() + Seq::<u8>::empty() =~= s.target());
    if s.frames.len() > 0 {
        assert(s.emit(Seq::empty()).frames =~= s.frames);
    }
}

/// Writing `a` and then `b` is writing `a + b`.
pub proof fn lemma_emit_emit(s: State, a: Seq<u8>, b: Seq<u8>)
    ensures
        s.emit(a).emit(b) == s.emit(a + b),
{
    assert((s.target() + a) + b =~= s.target() + (a + b));
    if s.frames.len() > 0 {
        assert(s.emit(a).emit(b).frames =~= s.emit(a + b).frames);
    }
}

} // verus!
