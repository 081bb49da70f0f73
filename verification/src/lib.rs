//! Canonical JSON: a deterministic, byte-exact encoding of JSON values.
//!
//! Two logically equal documents always encode to the same bytes: object
//! members are sorted by the bytes of their encoded keys, strings are brought
//! into Unicode Normalization Form C, numbers are integers, and only `"` and
//! `\` are escaped.
//!
//! [`CanonicalFormatter`] takes the events of a walk over a value and writes
//! the encoding; [`encode`] walks over a [`JsonValue`] itself. What the
//! encoding of a value is, is defined in [`value`]; what holds of every
//! encoding is proved in [`laws`].

pub mod order;
pub mod members;
pub mod compact;
pub mod escape;
pub mod normalize;
pub mod utf8;
pub mod number;
pub mod state;
pub mod formatter;
pub mod value;
pub mod parse;
pub mod walk;
pub mod laws;

pub use escape::CharEscape;
pub use formatter::{CanonicalFormatter, Collecting, EncodeError, Object};
pub use value::{Field, JsonValue, Number};
pub use walk::encode;
