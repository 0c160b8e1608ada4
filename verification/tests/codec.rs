use subscriber::codec::{
    decode, decode_binary, decode_text, encode_binary, is_no_measurement, value_is_zero,
    DecodeError, Encoding,
};

/// The number that a payload's text denotes, as a caller of the library works it out.
fn number(payload: &[u8]) -> Option<u32> {
    std::str::from_utf8(payload).ok()?.parse::<f32>().ok().map(f32::to_bits)
}

#[test]
fn binary_payload_decodes_big_endian() {
    assert_eq!(decode_binary(&[0x41, 0x48, 0x00, 0x00]), Ok(12.5f32.to_bits()));
    assert_eq!(decode_binary(&[0x00, 0x00, 0x00, 0x01]), Ok(1));
    assert_eq!(decode_binary(&[0x01, 0x02, 0x03, 0x04]), Ok(0x0102_0304));
    assert_eq!(decode_binary(&[0xff, 0xff, 0xff, 0xff]), Ok(u32::MAX));
}

#[test]
fn binary_round_trip_is_exact() {
    let values = [
        0.0f32,
        -0.0,
        1.0,
        -1.0,
        12.5,
        3.14,
        f32::MIN,
        f32::MAX,
        f32::MIN_POSITIVE,
        f32::EPSILON,
        f32::INFINITY,
        f32::NEG_INFINITY,
        f32::NAN,
    ];
    for value in values {
        let payload = value.to_be_bytes();
        let bits = decode_binary(&payload).unwrap();
        assert_eq!(bits, value.to_bits());
        assert_eq!(encode_binary(bits), payload.to_vec());
    }
}

#[test]
fn binary_round_trip_over_bit_patterns() {
    let mut bits: u32 = 0;
    loop {
        let payload = encode_binary(bits);
        assert_eq!(payload, bits.to_be_bytes().to_vec());
        assert_eq!(decode_binary(&payload), Ok(bits));
        match bits.checked_add(0x0101_0107) {
            Some(next) => bits = next,
            None => break,
        }
    }
}

#[test]
fn binary_payload_of_another_length_is_malformed() {
    assert_eq!(decode_binary(&[]), Err(DecodeError::MalformedBinary));
    assert_eq!(decode_binary(&[1, 2, 3]), Err(DecodeError::MalformedBinary));
    assert_eq!(decode_binary(&[1, 2, 3, 4, 5]), Err(DecodeError::MalformedBinary));
}

#[test]
fn text_sentinel_decodes_to_zero() {
    let payload = b"-Infinity";
    assert!(is_no_measurement(payload));
    assert_eq!(decode_text(payload, number(payload)), Ok(0.0f32.to_bits()));
    assert_eq!(decode_text(payload, None), Ok(0.0f32.to_bits()));
}

#[test]
fn text_number_decodes_to_its_value() {
    let payload = b"3.14";
    assert_eq!(decode_text(payload, number(payload)), Ok(3.14f32.to_bits()));
    let payload = b"12.5";
    assert_eq!(decode_text(payload, number(payload)), Ok(12.5f32.to_bits()));
    let payload = b"-7";
    assert_eq!(decode_text(payload, number(payload)), Ok((-7.0f32).to_bits()));
}

#[test]
fn text_that_is_no_number_is_malformed() {
    let payload = b"";
    assert_eq!(decode_text(payload, number(payload)), Err(DecodeError::MalformedText));
    let payload = b"abc";
    assert_eq!(decode_text(payload, number(payload)), Err(DecodeError::MalformedText));
}

#[test]
fn text_that_is_not_utf8_is_an_encoding_error() {
    let payload = [0xff, 0xfe, 0x31];
    assert_eq!(decode_text(&payload, number(&payload)), Err(DecodeError::Encoding));
    let payload = [0x31, 0xc3];
    assert_eq!(decode_text(&payload, Some(1)), Err(DecodeError::Encoding));
    let payload = [0xed, 0xa0, 0x80];
    assert_eq!(decode_text(&payload, None), Err(DecodeError::Encoding));
}

#[test]
fn text_with_an_ill_formed_character_is_an_encoding_error() {
    for payload in [
        &[0xc0u8, 0x80][..],
        &[0xe0, 0x80, 0x80],
        &[0xf4, 0x90, 0x80, 0x80],
        &[0xf8, 0x88, 0x80, 0x80, 0x80],
        &[0x80],
        &[0xe2, 0x82],
        &[0x31, 0x32, 0xff],
    ] {
        assert_eq!(decode_text(payload, Some(1)), Err(DecodeError::Encoding));
    }
    for text in ["\u{7f}", "\u{80}", "\u{7ff}", "\u{800}", "\u{ffff}", "\u{10000}", "\u{10ffff}"] {
        assert_eq!(decode_text(text.as_bytes(), Some(1)), Ok(1));
        assert_eq!(decode_text(text.as_bytes(), None), Err(DecodeError::MalformedText));
    }
}

#[test]
fn text_of_several_bytes_a_character_is_read() {
    let payload = "3.14\u{b0}".as_bytes();
    assert_eq!(decode_text(payload, None), Err(DecodeError::MalformedText));
    assert_eq!(decode_text(payload, Some(7)), Ok(7));
}

#[test]
fn near_sentinels_are_no_sentinel() {
    assert!(!is_no_measurement(b"-Infinit"));
    assert!(!is_no_measurement(b"-Infinity "));
    assert!(!is_no_measurement(b"-infinity"));
    assert!(!is_no_measurement(b"Infinity"));
    assert!(!is_no_measurement(b""));
}

#[test]
fn decode_goes_by_the_encoding() {
    let payload = 12.5f32.to_be_bytes();
    assert_eq!(decode(Encoding::Binary, &payload, None), Ok(12.5f32.to_bits()));
    assert_eq!(decode(Encoding::Binary, b"12.5!", Some(1)), Err(DecodeError::MalformedBinary));
    assert_eq!(decode(Encoding::Text, b"12.5", number(b"12.5")), Ok(12.5f32.to_bits()));
    assert_eq!(decode(Encoding::Text, b"1e", number(b"1e")), Err(DecodeError::MalformedText));
}

#[test]
fn zero_of_either_sign_is_zero() {
    assert!(value_is_zero(0.0f32.to_bits()));
    assert!(value_is_zero((-0.0f32).to_bits()));
    assert!(!value_is_zero(f32::MIN_POSITIVE.to_bits()));
    assert!(!value_is_zero(1));
    assert!(!value_is_zero(12.5f32.to_bits()));
}
