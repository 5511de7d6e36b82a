use shasper::keys::{string_to_bytes, HexError};

#[test]
fn keys_decode_with_or_without_prefix() {
    assert_eq!(string_to_bytes("0x0aFf"), Ok(vec![0x0a, 0xff]));
    assert_eq!(string_to_bytes("0aFf"), Ok(vec![0x0a, 0xff]));
    assert_eq!(string_to_bytes(""), Ok(vec![]));
    assert_eq!(string_to_bytes("0x"), Ok(vec![]));
}

#[test]
fn malformed_keys_are_refused() {
    assert_eq!(string_to_bytes("abc"), Err(HexError::OddLength));
    assert_eq!(string_to_bytes("0xabc"), Err(HexError::OddLength));
    assert_eq!(string_to_bytes("0xzz"), Err(HexError::InvalidHexCharacter { c: 'z', index: 0 }));
    assert_eq!(string_to_bytes("12g4"), Err(HexError::InvalidHexCharacter { c: 'g', index: 2 }));
    assert_eq!(string_to_bytes("1x2y"), Err(HexError::InvalidHexCharacter { c: 'x', index: 1 }));
}
