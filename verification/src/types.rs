//! The value types of the protocol and what they share: each can be written
//! out as bytes and knows how many bytes that takes.

use vstd::prelude::*;
use vstd::std_specs::convert::{FromSpecImpl, TryFromSpecImpl};
use vstd::utf8::encode_utf8;
use crate::codec::{
    decoding, encoding, from_varint_bytes, overlong, to_varint, MalformedEncodingError,
};
use crate::laws::lemma_encoding_len;

verus! {

/// A value that has an encoding on the wire.
pub trait MCType {
    /// The bytes that stand for this value on the wire.
    spec fn wire(&self) -> Seq<u8>;

    /// Writes the value out into a new buffer.
    fn to_bytes(&self) -> (bytes: Vec<u8>)
        ensures
            bytes@ == self.wire(),
    ;

    /// The number of bytes that `to_bytes` gives.
    fn size(&self) -> (size: usize)
        ensures
            size == self.wire().len(),
    ;
}

/// A signed 32-bit integer together with its encoding of one to five bytes.
/// The two always agree: the bytes are the encoding of the value.
#[derive(Debug, PartialEq, Eq)]
pub struct VarInt {
    bytes: Vec<u8>,
    value: i32,
}

impl View for VarInt {
    type V = i32;

    closed spec fn view(&self) -> i32 {
        self.value
    }
}

impl VarInt {
    #[verifier::type_invariant]
    spec fn agrees(&self) -> bool {
        self.bytes@ == encoding(self.value)
    }

    /// The integer `value` with its encoding.
    pub fn from_i32(value: i32) -> (result: Self)
        ensures
            result@ == value,
    {
        VarInt { bytes: to_varint(value), value }
    }

    /// The integer that `bytes` starts with. Bytes after it are ignored, and
    /// the result holds the encoding of the value, not the bytes read.
    pub fn from_bytes(bytes: &[u8]) -> (result: Result<Self, MalformedEncodingError>)
        ensures
            result is Err <==> overlong(bytes@),
            result matches Ok(number) ==> decoding(bytes@) matches Some((value, _)) && number@
                == value,
    {
        match from_varint_bytes(bytes) {
            Ok((value, _)) => Ok(VarInt::from_i32(value)),
            Err(e) => Err(e),
        }
    }

    /// The number of bytes of the encoding.
    pub fn len(&self) -> (len: i32)
        ensures
            len == encoding(self@).len(),
            1 <= len <= 5,
    {
        proof {
            use_type_invariant(self);
            lemma_encoding_len(self.value);
        }
        self.bytes.len() as i32
    }

    /// The encoding.
    pub fn bytes(&self) -> (bytes: &[u8])
        ensures
            bytes@ == encoding(self@),
    {
        proof {
            use_type_invariant(self);
        }
        self.bytes.as_slice()
    }

    /// The integer.
    pub fn value(&self) -> (value: i32)
        ensures
            value == self@,
    {
        self.value
    }

    /// Makes this hold `value`, replacing the integer and its encoding
    /// together.
    pub fn set(&mut self, value: i32)
        ensures
            final(self)@ == value,
    {
        *self = VarInt::from_i32(value);
    }
}

impl From<i32> for VarInt {
    /// The integer `value` with its encoding.
    fn from(value: i32) -> (result: Self)
        ensures
            result@ == value,
    {
        VarInt::from_i32(value)
    }
}

impl FromSpecImpl<i32> for VarInt {
    open spec fn obeys_from_spec() -> bool {
        false
    }

    open spec fn from_spec(value: i32) -> Self {
        arbitrary()
    }
}

impl<'a> TryFrom<&'a [u8]> for VarInt {
    type Error = MalformedEncodingError;

    /// The integer that `bytes` starts with; see [`VarInt::from_bytes`].
    fn try_from(bytes: &'a [u8]) -> (result: Result<Self, MalformedEncodingError>)
        ensures
            result is Err <==> overlong(bytes@),
            result matches Ok(number) ==> decoding(bytes@) matches Some((value, _)) && number@
                == value,
    {
        VarInt::from_bytes(bytes)
    }
}

impl<'a> TryFromSpecImpl<&'a [u8]> for VarInt {
    open spec fn obeys_try_from_spec() -> bool {
        false
    }

    open spec fn try_from_spec(bytes: &'a [u8]) -> Result<Self, MalformedEncodingError> {
        arbitrary()
    }
}

impl Clone for VarInt {
    fn clone(&self) -> (result: Self)
        ensures
            result@ == self@,
    {
        proof {
            use_type_invariant(self);
        }
        VarInt { bytes: self.bytes.clone(), value: self.value }
    }
}

impl MCType for VarInt {
    open spec fn wire(&self) -> Seq<u8> {
        encoding(self@)
    }

    fn to_bytes(&self) -> (bytes: Vec<u8>) {
        proof {
            use_type_invariant(self);
        }
        let mut bytes = Vec::<u8>::new();
        bytes.extend_from_slice(self.bytes.as_slice());
        bytes
    }

    fn size(&self) -> (size: usize) {
        proof {
            use_type_invariant(self);
        }
        self.bytes.len()
    }
}

/// The length of a text does not fit a signed 32-bit integer, so it cannot be
/// written as a length prefix.
#[derive(Clone, Copy, Debug, PartialEq, Eq)]
pub struct RangeError;

/// The encoding of a text: the number of bytes of its UTF-8 form as a
/// variable-width integer, then those bytes.
pub open spec fn string_encoding(text: Seq<char>) -> Seq<u8>
    recommends
        encode_utf8(text).len() <= i32::MAX,
{
    encoding(encode_utf8(text).len() as i32) + encode_utf8(text)
}

/// The byte count `len` as the value of a length prefix.
pub fn length_prefix(len: usize) -> (result: Result<i32, RangeError>)
    ensures
        result is Err <==> len > i32::MAX,
        result matches Ok(prefix) ==> prefix == len,
{
    if len > i32::MAX as usize {
        Err(RangeError)
    } else {
        Ok(len as i32)
    }
}

/// A text together with the length prefix that precedes it on the wire. The
/// prefix always holds the number of bytes of the text's UTF-8 form, which is
/// therefore never more than a signed 32-bit integer can count.
#[derive(Debug, PartialEq, Eq)]
pub struct MCString {
    size: VarInt,
    string: String,
}

impl View for MCString {
    type V = Seq<char>;

    closed spec fn view(&self) -> Seq<char> {
        self.string@
    }
}

impl MCString {
    #[verifier::type_invariant]
    spec fn agrees(&self) -> bool {
        self.size@ == encode_utf8(self.string@).len()
    }

    /// The number of bytes of the length prefix.
    pub fn len(&self) -> (len: i32)
        ensures
            encode_utf8(self@).len() <= i32::MAX,
            len == encoding(encode_utf8(self@).len() as i32).len(),
            1 <= len <= 5,
    {
        proof {
            use_type_invariant(self);
        }
        self.size.len()
    }
}

impl TryFrom<String> for MCString {
    type Error = RangeError;

    /// The text `value` with its length prefix. Fails where the UTF-8 form of
    /// `value` has more bytes than a signed 32-bit integer can count.
    fn try_from(value: String) -> (result: Result<Self, RangeError>)
        ensures
            result is Err <==> encode_utf8(value@).len() > i32::MAX,
            result matches Ok(text) ==> text@ == value@,
    {
        match length_prefix(value.as_str().as_bytes().len()) {
            Ok(prefix) => Ok(MCString { size: VarInt::from_i32(prefix), string: value }),
            Err(e) => Err(e),
        }
    }
}

impl TryFromSpecImpl<String> for MCString {
    open spec fn obeys_try_from_spec() -> bool {
        false
    }

    open spec fn try_from_spec(value: String) -> Result<Self, RangeError> {
        arbitrary()
    }
}

impl MCType for MCString {
    open spec fn wire(&self) -> Seq<u8> {
        string_encoding(self@)
    }

    fn to_bytes(&self) -> (bytes: Vec<u8>)
        ensures
            encode_utf8(self@).len() <= i32::MAX,
    {
        proof {
            use_type_invariant(self);
        }
        let mut bytes = Vec::<u8>::new();
        let mut prefix = self.size.to_bytes();
        bytes.append(&mut prefix);
        bytes.extend_from_slice(self.string.as_str().as_bytes());
        bytes
    }

    fn size(&self) -> (size: usize)
        ensures
            encode_utf8(self@).len() <= i32::MAX,
    {
        proof {
            use_type_invariant(self);
        }
        let prefix = self.size.size();
        proof {
            lemma_encoding_len(self.size@);
        }
        prefix + self.string.as_str().as_bytes().len()
    }
}

} // verus!
