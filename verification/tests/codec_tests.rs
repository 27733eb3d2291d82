use rgit::codec::{decimal_bytes, hex_encode, hex_to_bytes, parse_i64, HexError};

#[test]
fn hex_encode_lowercase() {
    assert_eq!(hex_encode(&[0x00, 0xab, 0x1f, 0xff]), "00ab1fff");
    assert_eq!(hex_encode(&[]), "");
}

#[test]
fn hex_decode_accepts_both_cases() {
    assert_eq!(hex_to_bytes("00aB1F").unwrap(), vec![0x00, 0xab, 0x1f]);
    assert_eq!(hex_to_bytes("").unwrap(), Vec::<u8>::new());
}

#[test]
fn hex_roundtrip_on_bytes() {
    let data: Vec<u8> = (0u8..=255).collect();
    let text = hex_encode(&data);
    assert_eq!(text.len(), 512);
    assert_eq!(hex_to_bytes(&text).unwrap(), data);
}

#[test]
fn hex_decode_odd_length() {
    assert_eq!(hex_to_bytes("abc"), Err(HexError::OddLength));
}

#[test]
fn hex_decode_bad_digit_reports_first() {
    assert_eq!(
        hex_to_bytes("a0zgx1"),
        Err(HexError::InvalidHexCharacter { c: 'z', index: 2 })
    );
    assert_eq!(
        hex_to_bytes("0g"),
        Err(HexError::InvalidHexCharacter { c: 'g', index: 1 })
    );
}

#[test]
fn decimal_digits() {
    assert_eq!(decimal_bytes(0), b"0".to_vec());
    assert_eq!(decimal_bytes(100644), b"100644".to_vec());
    assert_eq!(decimal_bytes(u64::MAX), b"18446744073709551615".to_vec());
}

#[test]
fn parse_i64_like_from_str() {
    assert_eq!(parse_i64(b"1700000000"), Some(1700000000));
    assert_eq!(parse_i64(b"+12"), Some(12));
    assert_eq!(parse_i64(b"-12"), Some(-12));
    assert_eq!(parse_i64(b"-9223372036854775808"), Some(i64::MIN));
    assert_eq!(parse_i64(b"9223372036854775807"), Some(i64::MAX));
    assert_eq!(parse_i64(b"9223372036854775808"), None);
    assert_eq!(parse_i64(b""), None);
    assert_eq!(parse_i64(b"-"), None);
    assert_eq!(parse_i64(b"12a"), None);
    assert_eq!(parse_i64(b" 12"), None);
}
