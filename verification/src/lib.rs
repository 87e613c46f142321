//! Wire encodings of protocol fields: the variable-width signed integer and
//! the length-prefixed string built on it.

pub mod codec;
pub mod laws;
pub mod types;

pub use crate::codec::{from_varint_bytes, to_varint, MalformedEncodingError};
pub use crate::types::{length_prefix, MCString, MCType, RangeError, VarInt};
