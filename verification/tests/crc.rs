use zmodem::crc::{checksum, crc16, crc16_update, crc32, crc32_update};

fn reference16(bytes: &[u8]) -> u16 {
    crc::Crc::<u16>::new(&crc::CRC_16_XMODEM).checksum(bytes)
}

fn reference32(bytes: &[u8]) -> u32 {
    crc::Crc::<u32>::new(&crc::CRC_32_ISO_HDLC).checksum(bytes)
}

#[test]
fn crc16_check_value() {
    assert_eq!(crc16(b"123456789", None), 0x31c3);
    assert_eq!(checksum(b"123456789"), 0x31c3);
}

#[test]
fn crc32_check_value() {
    assert_eq!(crc32(b"123456789", None), 0xcbf4_3926);
}

#[test]
fn crc_of_nothing() {
    assert_eq!(crc16(&[], None), 0);
    assert_eq!(checksum(&[]), 0);
    assert_eq!(crc32(&[], None), 0);
}

#[test]
fn crc16_of_zero_header_is_zero() {
    assert_eq!(crc16(&[0, 0, 0, 0, 0], None), 0);
}

#[test]
fn crc16_single_byte_by_hand() {
    // 0x01 << 8 = 0x0100; eight shifts bring the set bit out once, at the
    // eighth, which folds the polynomial in: 0x1021.
    assert_eq!(crc16(&[0x01], None), 0x1021);
    assert_eq!(crc16_update(0, 0x01), 0x1021);
    assert_eq!(crc16_update(0, 0x80), 0x9188);
}

#[test]
fn bitwise_and_table_crc16_agree() {
    let mut data = Vec::new();
    for i in 0..600u32 {
        data.push((i.wrapping_mul(31) ^ (i >> 3)) as u8);
        assert_eq!(checksum(&data), crc16(&data, None));
        assert_eq!(checksum(&data), reference16(&data));
    }
}

#[test]
fn crc16_with_trailing_byte_is_crc_of_longer_input() {
    let data: Vec<u8> = (0..=255u8).collect();
    for marker in [0x68u8, 0x69, 0x6a, 0x6b, 0x00, 0xff] {
        let mut longer = data.clone();
        longer.push(marker);
        assert_eq!(crc16(&data, Some(marker)), reference16(&longer));
        assert_eq!(crc16(&data, Some(marker)), crc16(&longer, None));
    }
    assert_eq!(crc16(&[], Some(0x6b)), reference16(&[0x6b]));
}

#[test]
fn crc32_with_trailing_byte_is_crc_of_longer_input() {
    let data: Vec<u8> = (0..=255u8).rev().collect();
    for marker in [0x68u8, 0x69, 0x6a, 0x6b, 0x00, 0xff] {
        let mut longer = data.clone();
        longer.push(marker);
        assert_eq!(crc32(&data, Some(marker)), reference32(&longer));
        assert_eq!(crc32(&data, Some(marker)), crc32(&longer, None));
    }
    assert_eq!(crc32(&[], Some(0x6b)), reference32(&[0x6b]));
}

#[test]
fn crc32_update_runs_on_the_inverted_register() {
    let mut reg = 0xffff_ffffu32;
    for b in b"123456789" {
        reg = crc32_update(reg, *b);
    }
    assert_eq!(reg ^ 0xffff_ffff, 0xcbf4_3926);
}

#[test]
fn crc16_changes_with_every_single_bit_flip() {
    let data: Vec<u8> = (0..40u8).map(|i| i.wrapping_mul(7).wrapping_add(3)).collect();
    let good = crc16(&data, Some(0x69));
    let mut whole = data.clone();
    whole.push(0x69);
    for i in 0..whole.len() {
        for bit in 0..8 {
            let mut bad = whole.clone();
            bad[i] ^= 1 << bit;
            assert_ne!(crc16(&bad, None), good, "byte {} bit {}", i, bit);
        }
    }
}
