use phrase_fanout::codec::{decimal_i64, hex_decode, hex_encode, HexError};

#[test]
fn decode_mixed_case() {
    assert_eq!(hex_decode(b"deadBEEF").unwrap(), vec![0xde, 0xad, 0xbe, 0xef]);
    assert_eq!(hex_decode(b"00").unwrap(), vec![0x00]);
    assert_eq!(hex_decode(b"").unwrap(), Vec::<u8>::new());
}

#[test]
fn decode_odd_length() {
    assert_eq!(hex_decode(b"123").unwrap_err(), HexError::OddLength);
}

#[test]
fn decode_invalid_char() {
    assert_eq!(hex_decode(b"zz").unwrap_err(), HexError::InvalidChar);
    assert_eq!(hex_decode(b"0g").unwrap_err(), HexError::InvalidChar);
}

#[test]
fn encode_lowercase() {
    assert_eq!(hex_encode(&[0xde, 0xad, 0x01]), "dead01");
    assert_eq!(hex_encode(&[]), "");
    assert_eq!(hex_encode(&[0x0f, 0xf0]), "0ff0");
}

#[test]
fn round_trip() {
    let bytes: Vec<u8> = (0u8..=255).collect();
    let text = hex_encode(&bytes);
    assert_eq!(hex_decode(text.as_bytes()).unwrap(), bytes);
}

#[test]
fn decimal_formatting() {
    assert_eq!(decimal_i64(0), b"0".to_vec());
    assert_eq!(decimal_i64(7), b"7".to_vec());
    assert_eq!(decimal_i64(1700000000), b"1700000000".to_vec());
    assert_eq!(decimal_i64(-45), b"-45".to_vec());
    assert_eq!(decimal_i64(i64::MAX), b"9223372036854775807".to_vec());
    assert_eq!(decimal_i64(i64::MIN), b"-9223372036854775808".to_vec());
}
