use zmodem::consts::{ZBIN, ZBIN32, ZBINR32, ZHEX, ZRINIT, ZRPOS};
use zmodem::proto::{
    u16_from_be, u16_to_be, u32_from_be, u32_to_be, u32_to_le, FrameEncoding, FrameHeader,
    FrameType,
};

#[test]
fn new_header_has_zero_data() {
    let h = FrameHeader::new(FrameEncoding(ZHEX), FrameType(ZRINIT));
    assert_eq!(h.encoding, FrameEncoding(b'B'));
    assert_eq!(h.frame_type, FrameType(0x01));
    assert_eq!(h.data, [0, 0, 0, 0]);
    assert_eq!(h.to_checked_bytes(), [0x01, 0, 0, 0, 0]);
}

#[test]
fn flags_are_big_endian() {
    let h = FrameHeader::new(FrameEncoding(ZHEX), FrameType(ZRINIT)).set_flags(0x1234_5678);
    assert_eq!(h.data, [0x12, 0x34, 0x56, 0x78]);
    assert_eq!(h.frame_type, FrameType(ZRINIT));
    assert_eq!(h.encoding, FrameEncoding(ZHEX));
}

#[test]
fn count_is_little_endian() {
    let h = FrameHeader::new(FrameEncoding(ZHEX), FrameType(ZRPOS)).set_count(0x1234_5678);
    assert_eq!(h.data, [0x78, 0x56, 0x34, 0x12]);
    assert_eq!(h.to_checked_bytes(), [0x09, 0x78, 0x56, 0x34, 0x12]);
}

#[test]
fn byte_orders_match_std() {
    for x in [0u32, 1, 0xff, 0x100, 0xdead_beef, u32::MAX, 0x8000_0000] {
        assert_eq!(u32_to_be(x), x.to_be_bytes());
        assert_eq!(u32_to_le(x), x.to_le_bytes());
        assert_eq!(u32_from_be(x.to_be_bytes()), x);
    }
    for x in [0u16, 1, 0xff, 0x100, 0x31c3, u16::MAX] {
        assert_eq!(u16_to_be(x), x.to_be_bytes());
        assert_eq!(u16_from_be(x.to_be_bytes()), x);
    }
}

#[test]
fn three_encodings_are_received() {
    assert!(FrameEncoding(ZHEX).is_receivable());
    assert!(FrameEncoding(ZBIN).is_receivable());
    assert!(FrameEncoding(ZBIN32).is_receivable());
    assert!(!FrameEncoding(ZBINR32).is_receivable());
    assert!(!FrameEncoding(0).is_receivable());
    assert!(!FrameEncoding(b'b').is_receivable());
}
