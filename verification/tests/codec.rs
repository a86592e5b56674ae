use base64_codec::DecodeError;
use base64_codec::decode;
use base64_codec::decode_as_mut8;
use base64_codec::decode_as_vecu8;
use base64_codec::encode;
use base64_codec::encode_bytes;

#[test]
fn test_base64_encode_decode() {
    let text = "What's up?ðŸ˜ŠðŸ¥˜ðŸ²ðŸš©ðŸðŸš€ðŸ‘ŒðŸ˜ðŸ‘ðŸ˜â¤ï¸ðŸ’•ðŸŽ¶";
    let encoded_base64 = encode(&text);
    let decoded_text = decode(&encoded_base64).unwrap();
    // If it worked, text and decoded_text would be the same
    println!("Original: {}\nDecoded: {}", text, decoded_text);
    assert_eq!(text, decoded_text);
}

#[test]
fn test_base64_encode_check_decode() {
    let text = "hello world";
    let encoded_base64 = "aGVsbG8gd29ybGQ=";

    assert_eq!(encode(text), encoded_base64);
    assert_eq!(text, &decode(encoded_base64).unwrap()[..]);
}

#[test]
fn test_empty_input() {
    assert_eq!(encode(""), "");
    assert_eq!(encode_bytes(&[]), "");
    assert_eq!(decode("").unwrap(), "");
    assert_eq!(decode_as_vecu8("").unwrap(), Vec::<u8>::new());
}

#[test]
fn test_known_vectors() {
    assert_eq!(encode_bytes(b"hello"), "aGVsbG8=");
    assert_eq!(encode_bytes(b"hell"), "aGVsbA==");
    assert_eq!(encode_bytes(b"hel"), "aGVs");
    assert_eq!(decode_as_vecu8("aGVsbG8=").unwrap(), b"hello");
    assert_eq!(decode_as_vecu8("aGVsbA==").unwrap(), b"hell");
    assert_eq!(decode_as_vecu8("aGVs").unwrap(), b"hel");
    assert_eq!(decode("aGVsbG8=").unwrap(), "hello");
}

#[test]
fn test_encode_length_law() {
    for n in 0..32usize {
        let bytes = vec![0xa5u8; n];
        assert_eq!(encode_bytes(&bytes).len(), 4 * ((n + 2) / 3));
    }
}

#[test]
fn test_byte_round_trip() {
    for b in 0..=255u8 {
        let bytes = vec![b];
        assert_eq!(decode_as_vecu8(&encode_bytes(&bytes)).unwrap(), bytes);
    }
    for n in 0..16usize {
        let bytes: Vec<u8> = (0..n as u8).map(|k| k.wrapping_mul(37).wrapping_add(11)).collect();
        assert_eq!(decode_as_vecu8(&encode_bytes(&bytes)).unwrap(), bytes);
    }
}

#[test]
fn test_invalid_length_rejected() {
    assert_eq!(decode("abc"), Err(DecodeError::InvalidEncoding));
    assert_eq!(decode("aGVsbG8"), Err(DecodeError::InvalidEncoding));
    assert_eq!(decode_as_vecu8("a"), Err(DecodeError::InvalidEncoding));
}

#[test]
fn test_illegal_character_rejected() {
    assert_eq!(decode("ab%="), Err(DecodeError::InvalidEncoding));
    assert_eq!(decode("ab\u{e9}="), Err(DecodeError::InvalidEncoding));
    assert_eq!(decode_as_vecu8("a b="), Err(DecodeError::InvalidEncoding));
}

#[test]
fn test_malformed_padding_rejected() {
    assert_eq!(decode("a==="), Err(DecodeError::InvalidEncoding));
    assert_eq!(decode("===="), Err(DecodeError::InvalidEncoding));
    assert_eq!(decode("ab=c"), Err(DecodeError::InvalidEncoding));
    assert_eq!(decode("aGVsbA==aGVs"), Err(DecodeError::InvalidEncoding));
}

#[test]
fn test_decoded_bytes_not_utf8() {
    // 0xff 0xfe is no valid UTF-8, so the text shape fails ...
    let encoded = encode_bytes(&[0xff, 0xfe]);
    assert_eq!(decode(&encoded), Err(DecodeError::InvalidEncoding));
    // ... while the byte shapes still succeed
    assert_eq!(decode_as_vecu8(&encoded).unwrap(), vec![0xff, 0xfe]);
}

#[test]
fn test_buffer_too_small() {
    // decoded length is 5, capacity only 3
    let mut dest = vec![0u8; 3];
    assert_eq!(decode_as_mut8("aGVsbG8=", &mut dest), Err(DecodeError::BufferTooSmall));
    assert_eq!(dest, vec![0u8; 3]);
}

#[test]
fn test_decode_into_exact_buffer() {
    let mut dest = vec![0u8; 5];
    assert_eq!(decode_as_mut8("aGVsbG8=", &mut dest), Ok(()));
    assert_eq!(dest, b"hello");
}

#[test]
fn test_decode_into_larger_buffer() {
    let mut dest = vec![9u8; 8];
    assert_eq!(decode_as_mut8("aGVsbG8=", &mut dest), Ok(()));
    assert_eq!(dest, b"hello\x09\x09\x09");
}

#[test]
fn test_decode_into_invalid_leaves_buffer() {
    let mut dest = vec![7u8; 4];
    assert_eq!(decode_as_mut8("bad!?", &mut dest), Err(DecodeError::InvalidEncoding));
    assert_eq!(dest, vec![7u8; 4]);
}

#[test]
fn test_four_byte_utf8_round_trip() {
    let text = "clef: \u{1d11e}, face: \u{1f600}";
    assert_eq!(decode(&encode(text)).unwrap(), text);
}

#[test]
fn test_non_canonical_trailing_bits_accepted() {
    // "aGVsbG9=" carries non-zero unused bits in its last data character;
    // the padding is still well placed, so it decodes
    assert_eq!(decode_as_vecu8("aGVsbG9=").unwrap(), b"hello");
}
