use zmodem::hex::{from_hex, to_hex, FromHexError};

#[test]
fn hex_round_trip_every_byte() {
    for b in 0..=255u8 {
        let digits = to_hex(b);
        assert!(digits.iter().all(|c| c.is_ascii_digit() || (b'a'..=b'f').contains(c)));
        assert_eq!(from_hex(digits), Ok(b));
    }
}

#[test]
fn hex_known_values() {
    assert_eq!(to_hex(0x00), [b'0', b'0']);
    assert_eq!(to_hex(0x8a), [b'8', b'a']);
    assert_eq!(to_hex(0xff), [b'f', b'f']);
    assert_eq!(from_hex([b'1', b'8']), Ok(0x18));
}

#[test]
fn hex_rejects_the_first_bad_digit() {
    assert_eq!(from_hex([b'g', b'0']), Err(FromHexError(b'g')));
    assert_eq!(from_hex([b'0', b'A']), Err(FromHexError(b'A')));
    assert_eq!(from_hex([b'x', b'y']), Err(FromHexError(b'x')));
}
