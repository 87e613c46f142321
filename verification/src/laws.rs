//! What holds of the variable-width integer format: encoding and decoding are
//! inverse, the decoder does not look past the encoded integer, and an
//! encoding is the one shortest way to write its value. A last law reads the
//! length of an encoded text back.

use vstd::prelude::*;
use vstd::utf8::encode_utf8;
use crate::codec::{
    bit_pattern, decoding, encoding, from_pattern, lemma_weights, overlong, scanned, segments,
    spelled, weight,
};
use crate::types::string_encoding;

verus! {

/// `bytes` is one run of segments: every byte but the last is flagged as
/// continued, and the last is not.
pub open spec fn terminated(bytes: Seq<u8>) -> bool {
    &&& bytes.len() >= 1
    &&& forall|i: int| 0 <= i < bytes.len() - 1 ==> bytes[i] >= 0x80
    &&& bytes.last() < 0x80
}

/// `bytes` is a run of at most five segments that writes a 32-bit pattern with
/// nothing to spare: no empty segment at its end, and in a fifth segment no
/// bit beyond the 32nd.
pub open spec fn minimal(bytes: Seq<u8>) -> bool {
    &&& terminated(bytes)
    &&& bytes.len() <= 5
    &&& bytes.len() > 1 ==> bytes.last() != 0
    &&& bytes.len() == 5 ==> bytes.last() < 0x10
}

/// The segments of `n` form one run.
proof fn lemma_segments_terminated(n: nat)
    ensures
        terminated(segments(n)),
    decreases n,
{
    if n >= 0x80 {
        lemma_segments_terminated(n / 0x80);
        let tail = segments(n / 0x80);
        let all = segments(n);
        assert(all == seq![(0x80 + n % 0x80) as u8] + tail);
        assert forall|i: int| 0 <= i < all.len() - 1 implies all[i] >= 0x80 by {
            if i > 0 {
                assert(all[i] == tail[i - 1]);
            }
        }
        assert(all.last() == tail.last());
    }
}

/// A number below 128 to the power `k` has at most `k` segments.
proof fn lemma_segments_len(n: nat, k: nat)
    requires
        k >= 1,
        n < weight(k),
    ensures
        segments(n).len() <= k,
    decreases k,
{
    reveal_with_fuel(weight, 2);
    if n >= 0x80 {
        assert(k >= 2);
        lemma_segments_len(n / 0x80, (k - 1) as nat);
    }
}

/// Where a number has more than one segment, the last of them is not empty.
proof fn lemma_segments_last(n: nat)
    ensures
        segments(n).len() >= 2 ==> segments(n).last() != 0,
    decreases n,
{
    if n >= 0x80 {
        lemma_segments_last(n / 0x80);
        let tail = segments(n / 0x80);
        assert(segments(n) == seq![(0x80 + n % 0x80) as u8] + tail);
        assert(segments(n).last() == tail.last());
    }
}

/// Reading the segments of `n`, whatever follows them, spells `n` and stops
/// at their end.
proof fn lemma_read_segments(n: nat, rest: Seq<u8>)
    ensures
        spelled(segments(n) + rest) == n,
        scanned(segments(n) + rest) == segments(n).len(),
    decreases n,
{
    let all = segments(n) + rest;
    if n < 0x80 {
        assert(all[0] == n as u8);
    } else {
        let tail = segments(n / 0x80);
        assert(all[0] == (0x80 + n % 0x80) as u8);
        assert(all.drop_first() == tail + rest);
        lemma_read_segments(n / 0x80, rest);
    }
}

/// A run spells less than the weight of its last segment times one more than
/// that segment.
proof fn lemma_spelled_bound(bytes: Seq<u8>)
    requires
        terminated(bytes),
    ensures
        spelled(bytes) < weight((bytes.len() - 1) as nat) * (bytes.last() + 1),
        bytes.len() > 1 && bytes.last() != 0 ==> spelled(bytes) >= 0x80,
    decreases bytes.len(),
{
    reveal_with_fuel(weight, 2);
    if bytes.len() > 1 {
        let tail = bytes.drop_first();
        assert(tail.last() == bytes.last());
        assert(terminated(tail)) by {
            assert forall|i: int| 0 <= i < tail.len() - 1 implies tail[i] >= 0x80 by {
                assert(tail[i] == bytes[i + 1]);
            }
        }
        lemma_spelled_bound(tail);
        let w = weight((tail.len() - 1) as nat);
        let top = bytes.last() + 1;
        assert(bytes[0] >= 0x80);
        assert(spelled(bytes) == (bytes[0] - 0x80) + 0x80 * spelled(tail));
        assert(weight((bytes.len() - 1) as nat) == 0x80 * w);
        assert(0x80 * spelled(tail) + 0x80 <= (0x80 * w) * top) by (nonlinear_arith)
            requires
                spelled(tail) < w * top,
        ;
        if bytes.last() != 0 {
            assert(spelled(tail) >= 1) by {
                if tail.len() == 1 {
                    assert(tail[0] == tail.last());
                }
            }
        }
    } else {
        assert(bytes[0] == bytes.last());
        assert(weight(0) * (bytes.last() + 1) == bytes.last() + 1) by (nonlinear_arith)
            requires
                weight(0) == 1,
        ;
    }
}

/// A run without an empty last segment is the segments of the number it
/// spells.
proof fn lemma_segments_of_spelled(bytes: Seq<u8>)
    requires
        terminated(bytes),
        bytes.len() > 1 ==> bytes.last() != 0,
    ensures
        segments(spelled(bytes)) == bytes,
    decreases bytes.len(),
{
    if bytes.len() > 1 {
        let tail = bytes.drop_first();
        assert(tail.last() == bytes.last());
        assert(terminated(tail)) by {
            assert forall|i: int| 0 <= i < tail.len() - 1 implies tail[i] >= 0x80 by {
                assert(tail[i] == bytes[i + 1]);
            }
        }
        lemma_segments_of_spelled(tail);
        lemma_spelled_bound(bytes);
        let n = spelled(bytes);
        let low = (bytes[0] - 0x80) as nat;
        assert(n == low + 0x80 * spelled(tail));
        assert(n / 0x80 == spelled(tail) && n % 0x80 == low) by (nonlinear_arith)
            requires
                n == low + 0x80 * spelled(tail),
                low < 0x80,
        ;
        assert(segments(n) == seq![(0x80 + n % 0x80) as u8] + segments(n / 0x80));
        assert(segments(n) == bytes);
    } else {
        assert(bytes[0] == bytes.last());
        assert(segments(spelled(bytes)) == bytes);
    }
}

/// The bit pattern of a value is below 2 to the power 32, and gives the value
/// back.
proof fn lemma_pattern_inverse(value: i32)
    ensures
        bit_pattern(value) < 0x1_0000_0000,
        from_pattern(bit_pattern(value)) == value,
{
}

/// A pattern below 2 to the power 32 is the bit pattern of the value it
/// stands for.
proof fn lemma_pattern_unique(n: nat)
    requires
        n < 0x1_0000_0000,
    ensures
        bit_pattern(from_pattern(n)) == n,
{
}

/// An encoding has from one to five bytes.
pub proof fn lemma_encoding_len(value: i32)
    ensures
        1 <= encoding(value).len() <= 5,
{
    lemma_weights();
    lemma_segments_terminated(bit_pattern(value));
    lemma_segments_len(bit_pattern(value), 5);
}

/// Decoding an encoding gives the value back and reads the whole of it.
pub proof fn lemma_round_trip(value: i32)
    ensures
        decoding(encoding(value)) == Some((value, encoding(value).len())),
{
    lemma_decode_ignores_rest(value, Seq::empty());
    assert(encoding(value) + Seq::<u8>::empty() == encoding(value));
}

/// Decoding a buffer that starts with an encoding gives the encoded value and
/// reads the encoding alone, whatever bytes follow it.
pub proof fn lemma_decode_ignores_rest(value: i32, rest: Seq<u8>)
    ensures
        decoding(encoding(value) + rest) == Some((value, encoding(value).len())),
{
    let n = bit_pattern(value);
    let all = encoding(value) + rest;
    lemma_encoding_len(value);
    lemma_segments_terminated(n);
    lemma_read_segments(n, rest);
    lemma_pattern_inverse(value);
    let last = encoding(value).len() - 1;
    assert(all[last] == encoding(value).last());
    assert(!overlong(all));
}

/// An encoding is minimal.
pub proof fn lemma_encoding_minimal(value: i32)
    ensures
        minimal(encoding(value)),
{
    let n = bit_pattern(value);
    lemma_weights();
    lemma_encoding_len(value);
    lemma_segments_terminated(n);
    lemma_segments_last(n);
    if encoding(value).len() == 5 {
        lemma_read_segments(n, Seq::empty());
        assert(encoding(value) + Seq::<u8>::empty() == encoding(value));
        lemma_top_segment(encoding(value));
    }
}

/// In a run of five segments that spells a number below 2 to the power 32,
/// the fifth segment is below 16.
proof fn lemma_top_segment(bytes: Seq<u8>)
    requires
        terminated(bytes),
        bytes.len() == 5,
        spelled(bytes) < 0x1_0000_0000,
    ensures
        bytes.last() < 0x10,
{
    reveal_with_fuel(spelled, 6);
    let b1 = bytes.drop_first();
    let b2 = b1.drop_first();
    let b3 = b2.drop_first();
    let b4 = b3.drop_first();
    assert(b1[0] == bytes[1] && b2[0] == bytes[2] && b3[0] == bytes[3] && b4[0] == bytes[4]);
    assert(bytes[0] >= 0x80 && bytes[1] >= 0x80 && bytes[2] >= 0x80 && bytes[3] >= 0x80);
    assert(bytes.last() == bytes[4]);
}

/// The encoding of a value is the only minimal run that decodes to it.
pub proof fn lemma_minimal_unique(bytes: Seq<u8>, value: i32)
    requires
        minimal(bytes),
        decoding(bytes) matches Some((decoded, _)) && decoded == value,
    ensures
        bytes == encoding(value),
{
    lemma_weights();
    lemma_spelled_bound(bytes);
    let n = spelled(bytes);
    let w = weight((bytes.len() - 1) as nat);
    assert(n < 0x1_0000_0000) by {
        if bytes.len() == 5 {
            assert(w * (bytes.last() + 1) <= w * 0x10) by (nonlinear_arith)
                requires
                    bytes.last() + 1 <= 0x10,
            ;
        } else {
            assert(w * (bytes.last() + 1) <= w * 0x80) by (nonlinear_arith)
                requires
                    bytes.last() + 1 <= 0x80,
            ;
        }
    }
    lemma_pattern_unique(n);
    lemma_segments_of_spelled(bytes);
}

/// No run shorter than the encoding of a value decodes to that value.
pub proof fn lemma_none_shorter(bytes: Seq<u8>, value: i32)
    requires
        terminated(bytes),
        decoding(bytes) matches Some((decoded, _)) && decoded == value,
    ensures
        bytes.len() >= encoding(value).len(),
{
    lemma_encoding_len(value);
    if bytes.len() < 5 {
        lemma_weights();
        lemma_spelled_bound(bytes);
        let n = spelled(bytes);
        let w = weight((bytes.len() - 1) as nat);
        assert(w * (bytes.last() + 1) <= w * 0x80) by (nonlinear_arith)
            requires
                bytes.last() + 1 <= 0x80,
        ;
        assert(weight(bytes.len()) == 0x80 * w) by {
            reveal_with_fuel(weight, 2);
        }
        lemma_pattern_unique(n);
        lemma_segments_len(n, bytes.len());
    }
}

/// An encoded text starts with the number of bytes of its UTF-8 form, and
/// those bytes are all that follows the prefix.
pub proof fn lemma_string_prefix(text: Seq<char>)
    requires
        encode_utf8(text).len() <= i32::MAX,
    ensures
        decoding(string_encoding(text)) matches Some((len, used)) && {
            &&& len == encode_utf8(text).len()
            &&& string_encoding(text).skip(used as int) == encode_utf8(text)
        },
{
    let len = encode_utf8(text).len() as i32;
    lemma_decode_ignores_rest(len, encode_utf8(text));
}

} // verus!
