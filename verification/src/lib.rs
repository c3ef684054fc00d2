//! A reversible binary-to-text encoding: every byte becomes one of 256 four-byte glyphs, and
//! every glyph decodes back to its byte.
//!
//! [`glyph`] holds the mapping between a byte and its glyph. [`encode`] and [`decode`] apply it
//! to streams of any length that arrive in chunks.

pub mod decode;
pub mod encode;
pub mod glyph;

pub use decode::Decoder;
pub use encode::encode_into;
pub use glyph::{from_emoticon, to_emoticon, DecodeError};
