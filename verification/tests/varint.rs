use mctypes::{from_varint_bytes, to_varint, MCType, MalformedEncodingError, VarInt};

#[test]
fn encode_zero() {
    assert_eq!(to_varint(0), vec![0x00]);
}

#[test]
fn encode_one() {
    assert_eq!(to_varint(1), vec![0x01]);
}

#[test]
fn encode_127() {
    assert_eq!(to_varint(127), vec![0x7F]);
}

#[test]
fn encode_128() {
    assert_eq!(to_varint(128), vec![0x80, 0x01]);
}

#[test]
fn encode_255() {
    assert_eq!(to_varint(255), vec![0xFF, 0x01]);
}

#[test]
fn encode_25565() {
    assert_eq!(to_varint(25565), vec![0xDD, 0xC7, 0x01]);
}

#[test]
fn encode_i32_max() {
    assert_eq!(to_varint(2147483647), vec![0xFF, 0xFF, 0xFF, 0xFF, 0x07]);
}

#[test]
fn encode_minus_one() {
    assert_eq!(to_varint(-1), vec![0xFF, 0xFF, 0xFF, 0xFF, 0x0F]);
}

#[test]
fn encode_i32_min() {
    assert_eq!(to_varint(-2147483648), vec![0x80, 0x80, 0x80, 0x80, 0x08]);
}

#[test]
fn encoded_length_grows_every_seven_bits() {
    assert_eq!(to_varint(0x7F).len(), 1);
    assert_eq!(to_varint(0x80).len(), 2);
    assert_eq!(to_varint(0x3FFF).len(), 2);
    assert_eq!(to_varint(0x4000).len(), 3);
    assert_eq!(to_varint(0x1F_FFFF).len(), 3);
    assert_eq!(to_varint(0x20_0000).len(), 4);
    assert_eq!(to_varint(0x0FFF_FFFF).len(), 4);
    assert_eq!(to_varint(0x1000_0000).len(), 5);
}

#[test]
fn negative_values_take_five_bytes() {
    for value in [-1, -2, -128, -25565, i32::MIN, i32::MIN + 1] {
        assert_eq!(to_varint(value).len(), 5);
    }
}

#[test]
fn encoding_is_minimal() {
    for value in [0, 1, 127, 128, 255, 25565, 0x4000, 0x20_0000, 0x1000_0000, i32::MAX, -1, i32::MIN] {
        let bytes = to_varint(value);
        let last = bytes.len() - 1;
        assert!(bytes.len() >= 1 && bytes.len() <= 5);
        assert!(bytes[..last].iter().all(|b| b & 0x80 != 0));
        assert_eq!(bytes[last] & 0x80, 0);
        if bytes.len() > 1 {
            assert_ne!(bytes[last], 0);
        }
        if bytes.len() == 5 {
            assert!(bytes[last] < 0x10);
        }
    }
}

#[test]
fn decode_known_vectors() {
    assert_eq!(from_varint_bytes(&[0x00]), Ok((0, 1)));
    assert_eq!(from_varint_bytes(&[0x01]), Ok((1, 1)));
    assert_eq!(from_varint_bytes(&[0x7F]), Ok((127, 1)));
    assert_eq!(from_varint_bytes(&[0x80, 0x01]), Ok((128, 2)));
    assert_eq!(from_varint_bytes(&[0xFF, 0x01]), Ok((255, 2)));
    assert_eq!(from_varint_bytes(&[0xDD, 0xC7, 0x01]), Ok((25565, 3)));
    assert_eq!(from_varint_bytes(&[0xFF, 0xFF, 0xFF, 0xFF, 0x07]), Ok((2147483647, 5)));
    assert_eq!(from_varint_bytes(&[0xFF, 0xFF, 0xFF, 0xFF, 0x0F]), Ok((-1, 5)));
    assert_eq!(from_varint_bytes(&[0x80, 0x80, 0x80, 0x80, 0x08]), Ok((-2147483648, 5)));
}

#[test]
fn round_trip() {
    let mut values = vec![0, 1, -1, 127, 128, 255, 256, 25565, i32::MAX, i32::MIN, i32::MIN + 1];
    for shift in 0..31 {
        values.push(1 << shift);
        values.push((1 << shift) - 1);
        values.push(-(1 << shift));
    }
    for value in values {
        let bytes = to_varint(value);
        assert_eq!(from_varint_bytes(&bytes), Ok((value, bytes.len())));
    }
}

#[test]
fn six_continued_bytes_are_malformed() {
    let bytes = [0x80, 0x80, 0x80, 0x80, 0x80, 0x80];
    assert_eq!(from_varint_bytes(&bytes), Err(MalformedEncodingError));
    assert_eq!(VarInt::from_bytes(&bytes), Err(MalformedEncodingError));
    let bytes = [0xFF, 0xFF, 0xFF, 0xFF, 0xFF, 0xFF];
    assert_eq!(from_varint_bytes(&bytes), Err(MalformedEncodingError));
}

#[test]
fn five_continued_bytes_are_malformed() {
    assert_eq!(from_varint_bytes(&[0x80, 0x80, 0x80, 0x80, 0x80]), Err(MalformedEncodingError));
    assert_eq!(
        from_varint_bytes(&[0xFF, 0xFF, 0xFF, 0xFF, 0xFF, 0x01]),
        Err(MalformedEncodingError)
    );
}

#[test]
fn trailing_bytes_are_ignored() {
    assert_eq!(from_varint_bytes(&[0x00, 0xFF, 0xFF, 0xFF, 0xFF, 0xFF, 0xFF]), Ok((0, 1)));
    assert_eq!(from_varint_bytes(&[0xDD, 0xC7, 0x01, 0x48, 0x65]), Ok((25565, 3)));
    assert_eq!(from_varint_bytes(&[0xFF, 0xFF, 0xFF, 0xFF, 0x0F, 0x80, 0x80]), Ok((-1, 5)));
    for value in [0, 127, 128, 25565, i32::MAX, -1, i32::MIN] {
        let encoded = to_varint(value);
        let mut buffer = encoded.clone();
        buffer.extend_from_slice(&[0x80, 0xFF, 0x00, 0x7F]);
        assert_eq!(from_varint_bytes(&buffer), Ok((value, encoded.len())));
    }
}

#[test]
fn padded_input_decodes_to_its_value() {
    assert_eq!(from_varint_bytes(&[0x80, 0x00]), Ok((0, 2)));
    assert_eq!(from_varint_bytes(&[0x81, 0x80, 0x80, 0x00]), Ok((1, 4)));
    let number = VarInt::from_bytes(&[0x81, 0x80, 0x80, 0x00]).unwrap();
    assert_eq!(number.value(), 1);
    assert_eq!(number.bytes(), &[0x01]);
}

#[test]
fn bits_beyond_the_32nd_are_dropped() {
    assert_eq!(from_varint_bytes(&[0xFF, 0xFF, 0xFF, 0xFF, 0x7F]), Ok((-1, 5)));
    assert_eq!(from_varint_bytes(&[0x80, 0x80, 0x80, 0x80, 0x10]), Ok((0, 5)));
    assert_eq!(from_varint_bytes(&[0x80, 0x80, 0x80, 0x80, 0x78]), Ok((i32::MIN, 5)));
}

#[test]
fn buffer_without_a_last_byte_gives_what_it_holds() {
    assert_eq!(from_varint_bytes(&[]), Ok((0, 0)));
    assert_eq!(from_varint_bytes(&[0x80]), Ok((0, 1)));
    assert_eq!(from_varint_bytes(&[0xFF, 0xFF]), Ok((0x3FFF, 2)));
    assert_eq!(from_varint_bytes(&[0x81, 0x80, 0x80, 0x80]), Ok((1, 4)));
}

#[test]
fn varint_from_i32_holds_value_and_encoding() {
    let number = VarInt::from_i32(25565);
    assert_eq!(number.value(), 25565);
    assert_eq!(number.bytes(), &[0xDD, 0xC7, 0x01]);
    assert_eq!(number.len(), 3);
    assert_eq!(number.to_bytes(), vec![0xDD, 0xC7, 0x01]);
    assert_eq!(number.size(), 3);
}

#[test]
fn varint_from_bytes_keeps_only_the_integer() {
    let number = VarInt::from_bytes(&[0xFF, 0x01, 0x06, 0x48, 0x65]).unwrap();
    assert_eq!(number.value(), 255);
    assert_eq!(number.bytes(), &[0xFF, 0x01]);
    assert_eq!(number.len(), 2);
    assert_eq!(number.size(), 2);
    assert_eq!(number.to_bytes(), vec![0xFF, 0x01]);
}

#[test]
fn varint_from_bytes_round_trip() {
    for value in [0, 1, 127, 128, 255, 25565, i32::MAX, -1, i32::MIN] {
        let first = VarInt::from_i32(value);
        let second = VarInt::from_bytes(first.bytes()).unwrap();
        assert_eq!(second.value(), value);
        assert_eq!(second, first);
    }
}

#[test]
fn varint_size_is_length_of_bytes() {
    for value in [0, 127, 128, 0x3FFF, 0x4000, 0x0FFF_FFFF, 0x1000_0000, i32::MAX, -1, i32::MIN] {
        let number = VarInt::from_i32(value);
        assert_eq!(number.size(), number.to_bytes().len());
        assert_eq!(number.len() as usize, number.bytes().len());
        assert_eq!(number.to_bytes(), number.bytes());
    }
}

#[test]
fn varint_set_replaces_value_and_bytes() {
    let mut number = VarInt::from_i32(-1);
    assert_eq!(number.len(), 5);
    number.set(128);
    assert_eq!(number.value(), 128);
    assert_eq!(number.bytes(), &[0x80, 0x01]);
    assert_eq!(number.len(), 2);
    assert_eq!(number, VarInt::from_i32(128));
    number.set(0);
    assert_eq!(number.to_bytes(), vec![0x00]);
    assert_eq!(number.size(), 1);
}

#[test]
fn varint_clone_is_equal() {
    let number = VarInt::from_i32(-25565);
    let copy = number.clone();
    assert_eq!(copy, number);
    assert_eq!(copy.value(), -25565);
    assert_eq!(copy.bytes(), number.bytes());
}

#[test]
fn varint_conversions() {
    let number = VarInt::from(255);
    assert_eq!(number.value(), 255);
    assert_eq!(number.bytes(), &[0xFF, 0x01]);
    let bytes: &[u8] = &[0xDD, 0xC7, 0x01, 0x00];
    let number = VarInt::try_from(bytes).unwrap();
    assert_eq!(number.value(), 25565);
    let bytes: &[u8] = &[0x80, 0x80, 0x80, 0x80, 0x80, 0x01];
    assert_eq!(VarInt::try_from(bytes), Err(MalformedEncodingError));
}
