//! The escape policy: only the quote and the backslash get a backslash in
//! front of them; every other character is written as it is.

use vstd::prelude::*;

verus! {

/// A character that a JSON writer would ordinarily escape.
#[derive(Clone, Copy, Debug)]
pub enum CharEscape {
    /// A quote `"`.
    Quote,
    /// A reverse solidus `\`.
    ReverseSolidus,
    /// A solidus `/`.
    Solidus,
    /// A backspace character.
    Backspace,
    /// A form feed character.
    FormFeed,
    /// A line feed character.
    LineFeed,
    /// A carriage return character.
    CarriageReturn,
    /// A tab character.
    Tab,
    /// Another control character of the ASCII plane, given by its byte.
    AsciiControl(u8),
}

impl CharEscape {
    /// The byte of the character itself.
    pub open spec fn literal(self) -> u8 {
        match self {
            CharEscape::Quote => 0x22,
            CharEscape::ReverseSolidus => 0x5c,
            CharEscape::Solidus => 0x2f,
            CharEscape::Backspace => 0x08,
            CharEscape::FormFeed => 0x0c,
            CharEscape::LineFeed => 0x0a,
            CharEscape::CarriageReturn => 0x0d,
            CharEscape::Tab => 0x09,
            CharEscape::AsciiControl(byte) => byte,
        }
    }

    /// Whether the character gets a backslash in front of it.
    pub open spec fn needs_backslash(self) -> bool {
        self is Quote || self is ReverseSolidus
    }

    /// The bytes that the character is written as.
    pub open spec fn bytes(self) -> Seq<u8> {
        if self.needs_backslash() {
            seq![0x5cu8, self.literal()]
        } else {
            seq![self.literal()]
        }
    }
}

} // verus!
