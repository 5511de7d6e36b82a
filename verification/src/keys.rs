//! Validator keys as key files write them: hexadecimal strings, with or
//! without a `0x` prefix.

use vstd::prelude::*;
use vstd::string::StringSliceAdditionalSpecFns;
use crate::uint_text::slice_from;

verus! {

/// Why a hexadecimal string was refused.
#[derive(Clone, Copy, Debug, PartialEq, Eq, Structural)]
pub enum HexError {
    /// A character that is no hexadecimal digit, and its position.
    InvalidHexCharacter { c: char, index: usize },
    /// An odd number of digits.
    OddLength,
    /// A length that does not fit the container decoded into.
    InvalidStringLength,
}

/// The value of a hexadecimal digit of either case.
pub open spec fn hex_digit(b: u8) -> Option<u8> {
    if 48 <= b <= 57 {
        Some((b - 48) as u8)
    } else if 97 <= b <= 102 {
        Some((b - 87) as u8)
    } else if 65 <= b <= 70 {
        Some((b - 55) as u8)
    } else {
        None
    }
}

/// The position of the first byte that is no hexadecimal digit, or the
/// length when there is none.
pub open spec fn first_non_hex(s: Seq<u8>) -> nat
    decreases s.len(),
{
    if s.len() == 0 {
        0
    } else if hex_digit(s[0]) is None {
        0
    } else {
        1 + first_non_hex(s.drop_first())
    }
}

/// The bytes a hexadecimal string stands for: an odd length is refused
/// first, then the first byte that is no digit; otherwise each pair of
/// digits gives a byte, the first digit being the high one.
pub open spec fn hex_decode_spec(s: Seq<u8>) -> Result<Seq<u8>, HexError> {
    if s.len() % 2 != 0 {
        Err(HexError::OddLength)
    } else if first_non_hex(s) < s.len() {
        Err(HexError::InvalidHexCharacter { c: s[first_non_hex(s) as int] as char, index: first_non_hex(s) as usize })
    } else {
        Ok(Seq::new(s.len() / 2, |i: int| (hex_digit(s[2 * i])->0 * 16 + hex_digit(s[2 * i + 1])->0) as u8))
    }
}

/// The bytes of a string without its `0x` prefix, if it has one.
pub open spec fn strip_prefix_0x(s: Seq<u8>) -> Seq<u8> {
    if s.len() >= 2 && s[0] == 48 && s[1] == 120 {
        s.skip(2)
    } else {
        s
    }
}

/// `hex::decode`. Claimed, as its source shows: an odd number of digits is
/// refused, then the first byte that is no hexadecimal digit, with its
/// position; otherwise each pair of digits becomes a byte.
#[verifier::external_body]
fn hex_decode(data: &[u8]) -> (r: Result<Vec<u8>, HexError>)
    ensures
        match r {
            Ok(v) => hex_decode_spec(data@) == Ok::<Seq<u8>, HexError>(v@),
            Err(e) => hex_decode_spec(data@) == Err::<Seq<u8>, HexError>(e),
        },
{
    match hex::decode(data) {
        Ok(v) => Ok(v),
        Err(hex::FromHexError::InvalidHexCharacter { c, index }) => Err(HexError::InvalidHexCharacter { c, index }),
        Err(hex::FromHexError::OddLength) => Err(HexError::OddLength),
        Err(hex::FromHexError::InvalidStringLength) => Err(HexError::InvalidStringLength),
    }
}

/// The bytes of a key written in hexadecimal, with or without `0x`.
pub fn string_to_bytes(string: &str) -> (r: Result<Vec<u8>, HexError>)
    ensures
        match r {
            Ok(v) => hex_decode_spec(strip_prefix_0x(string.spec_bytes())) == Ok::<Seq<u8>, HexError>(v@),
            Err(e) => hex_decode_spec(strip_prefix_0x(string.spec_bytes())) == Err::<Seq<u8>, HexError>(e),
        },
{
    let s = string.as_bytes();
    if s.len() >= 2 && s[0] == 48u8 && s[1] == 120u8 {
        let digits = slice_from(s, 2);
        hex_decode(digits.as_slice())
    } else {
        hex_decode(s)
    }
}

} // verus!
