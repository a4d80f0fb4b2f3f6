//! Two lowercase hexadecimal digits per byte.

use vstd::prelude::*;

verus! {

/// The byte that was found where a hexadecimal digit was expected.
#[derive(Clone, Copy, Debug, PartialEq, Eq, Structural)]
pub struct FromHexError(pub u8);

/// Whether `c` is one of `0-9` or `a-f`.
pub open spec fn is_hex_digit(c: u8) -> bool {
    (0x30 <= c <= 0x39) || (0x61 <= c <= 0x66)
}

/// The digit that stands for `n`, for `n` below sixteen.
pub open spec fn hex_digit(n: u8) -> u8 {
    if n < 10 {
        (0x30 + n) as u8
    } else {
        (0x61 + (n - 10)) as u8
    }
}

/// The number that the digit `c` stands for, if it is a digit.
pub open spec fn hex_value(c: u8) -> Option<u8> {
    if 0x30 <= c <= 0x39 {
        Some((c - 0x30) as u8)
    } else if 0x61 <= c <= 0x66 {
        Some((c - 0x61 + 10) as u8)
    } else {
        None
    }
}

/// The two digits of `byte`, high nibble first.
pub open spec fn hex_encode(byte: u8) -> Seq<u8> {
    seq![hex_digit(byte / 16), hex_digit(byte % 16)]
}

/// The byte that the digits `hi` and `lo` spell, or the first of the two
/// that is no digit.
pub open spec fn hex_decode(hi: u8, lo: u8) -> Result<u8, FromHexError> {
    match hex_value(hi) {
        None => Err(FromHexError(hi)),
        Some(h) => match hex_value(lo) {
            None => Err(FromHexError(lo)),
            Some(l) => Ok((h * 16 + l) as u8),
        },
    }
}

pub fn to_hex_nibble(nibble: u8) -> (digit: u8)
    requires
        nibble < 16,
    ensures
        digit == hex_digit(nibble),
        is_hex_digit(digit),
{
    if nibble < 10 {
        0x30 + nibble
    } else {
        0x61 + (nibble - 10)
    }
}

pub fn from_hex_nibble(nibble: u8) -> (r: Result<u8, FromHexError>)
    ensures
        match hex_value(nibble) {
            Some(v) => r == Ok::<u8, FromHexError>(v) && v < 16,
            None => r == Err::<u8, FromHexError>(FromHexError(nibble)),
        },
{
    if 0x30 <= nibble && nibble <= 0x39 {
        Ok(nibble - 0x30)
    } else if 0x61 <= nibble && nibble <= 0x66 {
        Ok(10 + (nibble - 0x61))
    } else {
        Err(FromHexError(nibble))
    }
}

/// Spells `byte` as two lowercase hexadecimal digits, high nibble first.
pub fn to_hex(byte: u8) -> (digits: [u8; 2])
    ensures
        digits@ == hex_encode(byte),
        is_hex_digit(digits[0]),
        is_hex_digit(digits[1]),
        hex_decode(digits[0], digits[1]) == Ok::<u8, FromHexError>(byte),
{
    proof {
        assert(byte >> 4 == byte / 16 && byte & 0xf == byte % 16) by (bit_vector);
    }
    let digits = [to_hex_nibble(byte >> 4), to_hex_nibble(byte & 0xf)];
    assert(digits@ =~= hex_encode(byte));
    digits
}

/// Reads two hexadecimal digits as one byte. The first byte that is no
/// lowercase digit is handed back as the error.
pub fn from_hex(bytes: [u8; 2]) -> (r: Result<u8, FromHexError>)
    ensures
        r == hex_decode(bytes[0], bytes[1]),
{
    let hi = from_hex_nibble(bytes[0])?;
    let lo = from_hex_nibble(bytes[1])?;
    proof {
        assert(hi < 16 && lo < 16 ==> (hi << 4 | lo) == hi * 16 + lo) by (bit_vector);
    }
    Ok(hi << 4 | lo)
}

/// Decoding the digits of any byte gives that byte back, and both digits
/// are drawn from `0-9a-f`.
pub proof fn hex_roundtrip(byte: u8)
    ensures
        hex_encode(byte).len() == 2,
        is_hex_digit(hex_encode(byte)[0]),
        is_hex_digit(hex_encode(byte)[1]),
        hex_decode(hex_encode(byte)[0], hex_encode(byte)[1]) == Ok::<u8, FromHexError>(byte),
{
}

} // verus!
