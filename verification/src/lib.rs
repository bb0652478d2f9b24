//! A binary-to-text codec over a caller-supplied alphabet.
//!
//! A charset is an ordered sequence of distinct characters; the position of
//! a character is the number it stands for. Encoding packs every three
//! bytes into four six-bit indices and writes the characters at those
//! positions. Decoding reads positions back and unpacks every four of them
//! into three bytes.

pub mod charset;
pub mod decode;
pub mod encode;
pub mod packing;
pub mod roundtrip;
pub mod text;

pub use charset::Charset;
pub use decode::{Decode, DecodeError, DecodeMode};
pub use encode::{Encode, EncodeError};
