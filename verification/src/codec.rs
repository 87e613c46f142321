//! The variable-width integer format.
//!
//! A signed 32-bit integer is written as one to five bytes. Each byte carries
//! seven bits of the integer's unsigned bit pattern in its low bits, least
//! significant group first; the high bit of a byte says that another byte
//! follows.

use vstd::prelude::*;
use crate::laws::lemma_encoding_len;

verus! {

/// The bits of a byte that carry a segment of the value.
const SEGMENT_BITS: u32 = 0x7F;

/// The flag in a byte's high bit: another byte follows.
const CONTINUE_BIT: u32 = 0x80;

/// The unsigned 32-bit pattern of `value` in two's complement.
pub open spec fn bit_pattern(value: i32) -> nat {
    if value < 0 {
        (value + 0x1_0000_0000) as nat
    } else {
        value as nat
    }
}

/// The integer whose two's complement pattern is the low 32 bits of `n`.
pub open spec fn from_pattern(n: nat) -> i32 {
    let low = n % 0x1_0000_0000;
    if low >= 0x8000_0000 {
        (low - 0x1_0000_0000) as i32
    } else {
        low as i32
    }
}

/// The bytes that carry `n` in groups of seven bits, least significant group
/// first, every byte but the last flagged as continued.
pub open spec fn segments(n: nat) -> Seq<u8>
    decreases n,
{
    if n < 0x80 {
        seq![n as u8]
    } else {
        seq![(0x80 + n % 0x80) as u8] + segments(n / 0x80)
    }
}

/// The encoding of `value`: the segments of its bit pattern.
pub open spec fn encoding(value: i32) -> Seq<u8> {
    segments(bit_pattern(value))
}

/// How many bytes of `bytes` the decoder reads: all up to and including the
/// first byte that is not flagged as continued, or the whole of `bytes` where
/// there is none.
pub open spec fn scanned(bytes: Seq<u8>) -> nat
    decreases bytes.len(),
{
    if bytes.len() == 0 {
        0
    } else if bytes[0] < 0x80 {
        1
    } else {
        1 + scanned(bytes.drop_first())
    }
}

/// The number that the segments of the scanned bytes spell, the first byte
/// holding the least significant seven bits.
pub open spec fn spelled(bytes: Seq<u8>) -> nat
    decreases bytes.len(),
{
    if bytes.len() == 0 {
        0
    } else if bytes[0] < 0x80 {
        bytes[0] as nat
    } else {
        (bytes[0] - 0x80) as nat + 0x80 * spelled(bytes.drop_first())
    }
}

/// `bytes` starts with five bytes that are all flagged as continued.
pub open spec fn overlong(bytes: Seq<u8>) -> bool {
    bytes.len() >= 5 && forall|i: int| 0 <= i < 5 ==> bytes[i] >= 0x80
}

/// What decoding `bytes` gives: the value and the number of bytes read, or
/// nothing where `bytes` is overlong. Bits of a fifth segment beyond the 32nd
/// are dropped.
pub open spec fn decoding(bytes: Seq<u8>) -> Option<(i32, nat)> {
    if overlong(bytes) {
        None
    } else {
        Some((from_pattern(spelled(bytes)), scanned(bytes)))
    }
}

/// The weight of the segment at index `i`: 128 to the power `i`.
pub open spec fn weight(i: nat) -> nat
    decreases i,
{
    if i == 0 {
        1
    } else {
        0x80 * weight((i - 1) as nat)
    }
}

/// The weights of the five segments, and of a sixth.
pub proof fn lemma_weights()
    ensures
        weight(0) == 1,
        weight(1) == 0x80,
        weight(2) == 0x4000,
        weight(3) == 0x20_0000,
        weight(4) == 0x1000_0000,
        weight(5) == 0x8_0000_0000,
{
    reveal_with_fuel(weight, 6);
}

/// The decoder met five bytes in a row that are all flagged as continued: the
/// value would need more than 32 bits.
#[derive(Clone, Copy, Debug, PartialEq, Eq)]
pub struct MalformedEncodingError;

proof fn lemma_unsigned(value: i32)
    by (bit_vector)
    ensures
        value < 0 ==> value as u32 == value + 0x1_0000_0000,
        value >= 0 ==> value as u32 == value,
{
}

proof fn lemma_signed(pattern: u32)
    by (bit_vector)
    ensures
        pattern >= 0x8000_0000 ==> pattern as i32 == pattern - 0x1_0000_0000,
        pattern < 0x8000_0000 ==> pattern as i32 == pattern,
{
}

proof fn lemma_split(rest: u32)
    by (bit_vector)
    ensures
        (rest & !0x7Fu32 == 0) <==> rest < 0x80,
        (rest & 0x7F) | 0x80 == 0x80 + rest % 0x80,
        rest >> 7 == rest / 0x80,
{
}

proof fn lemma_merge(acc: u32, byte: u32, pos: u32)
    by (bit_vector)
    requires
        pos == 0 || pos == 7 || pos == 14 || pos == 21 || pos == 28,
        acc < (1u32 << pos),
        byte < 0x100,
    ensures
        (byte & 0x80 == 0) <==> byte < 0x80,
        byte & 0x7F == byte % 0x80,
        pos < 28 ==> acc | ((byte & 0x7F) << pos) == acc + (byte % 0x80) * (1u32 << pos),
        pos < 28 ==> acc | ((byte & 0x7F) << pos) < (1u32 << ((pos + 7) as u32)),
        pos == 28 ==> acc | ((byte & 0x7F) << pos) == (acc + (byte % 0x80) * 0x1000_0000)
            % 0x1_0000_0000,
{
}

proof fn lemma_shifts()
    by (bit_vector)
    ensures
        1u32 << 0u32 == 1,
        1u32 << 7u32 == 0x80,
        1u32 << 14u32 == 0x4000,
        1u32 << 21u32 == 0x20_0000,
        1u32 << 28u32 == 0x1000_0000,
{
}

/// Encodes `value` in the fewest bytes, from one to five. The value is taken
/// as its unsigned bit pattern, so a negative one takes five bytes.
pub fn to_varint(value: i32) -> (bytes: Vec<u8>)
    ensures
        bytes@ == encoding(value),
        1 <= bytes.len() <= 5,
{
    let mut bytes = Vec::<u8>::new();
    let mut rest: u32 = #[verifier::truncate] (value as u32);
    proof {
        lemma_unsigned(value);
        lemma_encoding_len(value);
    }
    loop
        invariant_except_break
            encoding(value) == bytes@ + segments(rest as nat),
        ensures
            bytes@ == encoding(value),
        decreases rest,
    {
        proof {
            lemma_split(rest);
        }
        if rest & !SEGMENT_BITS == 0 {
            bytes.push(rest as u8);
            break;
        }
        bytes.push(((rest & SEGMENT_BITS) | CONTINUE_BIT) as u8);
        rest = rest >> 7;
    }
    bytes
}

/// Decodes the integer that `bytes` starts with, and says how many bytes it
/// took. Bytes after the first one that is not flagged as continued are not
/// looked at. A buffer that ends before such a byte gives the value of the
/// segments it holds. Five bytes in a row that are flagged as continued are
/// an error.
pub fn from_varint_bytes(bytes: &[u8]) -> (result: Result<(i32, usize), MalformedEncodingError>)
    ensures
        result is Err <==> overlong(bytes@),
        result matches Ok((value, used)) ==> {
            &&& decoding(bytes@) == Some((value, used as nat))
            &&& used <= bytes.len()
            &&& used <= 5
        },
{
    let mut acc: u32 = 0;
    let mut pos: u32 = 0;
    let mut i: usize = 0;
    proof {
        lemma_weights();
        assert(bytes@.skip(0) == bytes@);
    }
    while i < bytes.len()
        invariant
            i <= bytes.len(),
            i <= 4,
            pos == 7 * i,
            acc < weight(i as nat),
            forall|k: int| 0 <= k < i ==> bytes[k] >= 0x80,
            spelled(bytes@) == acc + weight(i as nat) * spelled(bytes@.skip(i as int)),
            scanned(bytes@) == i + scanned(bytes@.skip(i as int)),
        decreases bytes.len() - i,
    {
        let byte = bytes[i] as u32;
        let ghost low = acc;
        let ghost tail = spelled(bytes@.skip(i + 1));
        let ghost w = weight(i as nat);
        proof {
            lemma_weights();
            lemma_shifts();
            lemma_merge(acc, byte, pos);
            assert(1u32 << pos == w);
            assert(bytes@.skip(i as int)[0] == byte);
            assert(bytes@.skip(i as int).drop_first() == bytes@.skip(i + 1));
        }
        acc = acc | ((byte & SEGMENT_BITS) << pos);
        if byte & CONTINUE_BIT == 0 {
            proof {
                lemma_signed(acc);
                assert(spelled(bytes@) == low + byte * w) by (nonlinear_arith)
                    requires
                        spelled(bytes@) == low + w * spelled(bytes@.skip(i as int)),
                        spelled(bytes@.skip(i as int)) == byte,
                ;
                assert(acc == spelled(bytes@) % 0x1_0000_0000);
            }
            return Ok((#[verifier::truncate] (acc as i32), i + 1));
        }
        if i == 4 {
            return Err(MalformedEncodingError);
        }
        proof {
            assert(low + w * ((byte - 0x80) + 0x80 * tail) == (low + (byte - 0x80) * w) + (0x80 * w)
                * tail) by (nonlinear_arith);
        }
        pos = pos + 7;
        i = i + 1;
    }
    proof {
        lemma_weights();
        lemma_signed(acc);
        assert(bytes@.skip(i as int).len() == 0);
        assert(spelled(bytes@) == acc) by (nonlinear_arith)
            requires
                spelled(bytes@) == acc + weight(i as nat) * spelled(bytes@.skip(i as int)),
                spelled(bytes@.skip(i as int)) == 0,
        ;
    }
    Ok((#[verifier::truncate] (acc as i32), i))
}

} // verus!
