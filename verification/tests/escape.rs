use zmodem::escape::{unescape, zdle_decode, zdle_encode, Escape};

#[test]
fn plain_stream_travels_unchanged() {
    let data: Vec<u8> = (0..=255u8).filter(|b| *b != 0x18).collect();
    let wire = zdle_encode(&data);
    assert_eq!(wire, data);
    assert_eq!(zdle_decode(&wire), Some(data));
}

#[test]
fn zdle_is_sent_as_zdle_zdlee() {
    assert_eq!(zdle_encode(&[0x18]), vec![0x18, 0x58]);
    assert_eq!(zdle_encode(&[1, 0x18, 2, 0x18]), vec![1, 0x18, 0x58, 2, 0x18, 0x58]);
    assert_eq!(zdle_decode(&[0x18, 0x58]), Some(vec![0x18]));
}

#[test]
fn every_stream_round_trips() {
    let data: Vec<u8> = (0..2000u32).map(|i| (i % 256) as u8 ^ if i % 5 == 0 { 0x18 } else { 0 }).collect();
    assert_eq!(zdle_decode(&zdle_encode(&data)), Some(data));
    assert_eq!(zdle_decode(&zdle_encode(&[])), Some(vec![]));
}

#[test]
fn rubout_escapes_decode() {
    assert_eq!(zdle_decode(&[0x18, 0x6c]), Some(vec![0x7f]));
    assert_eq!(zdle_decode(&[0x18, 0x6d]), Some(vec![0xff]));
    assert_eq!(unescape(0x6c), Escape::Literal(0x7f));
    assert_eq!(unescape(0x6d), Escape::Literal(0xff));
}

#[test]
fn control_escapes_clear_bit_six() {
    assert_eq!(unescape(0x58), Escape::Literal(0x18));
    assert_eq!(unescape(0x51), Escape::Literal(0x11));
    assert_eq!(unescape(0x53), Escape::Literal(0x13));
    assert_eq!(unescape(0x50), Escape::Literal(0x10));
    assert_eq!(unescape(0xd1), Escape::Literal(0x91));
    assert_eq!(unescape(0x40), Escape::Literal(0x00));
    assert_eq!(unescape(0x5f), Escape::Literal(0x1f));
}

#[test]
fn markers_end_a_subpacket() {
    for m in [0x68u8, 0x69, 0x6a, 0x6b] {
        assert_eq!(unescape(m), Escape::Marker(m));
        assert_eq!(zdle_decode(&[1, 2, 0x18, m]), None);
    }
}

#[test]
fn other_bytes_have_no_meaning_after_zdle() {
    for b in [0x00u8, 0x18, 0x20, 0x3f, 0x60, 0x67, 0x6e, 0x7f, 0x80, 0xa0, 0xe8, 0xff] {
        assert_eq!(unescape(b), Escape::Invalid(b));
        assert_eq!(zdle_decode(&[0x18, b]), None);
    }
}

#[test]
fn every_byte_is_classified_in_order() {
    for b in 0..=255u8 {
        let expected = if b & 0x60 == 0x40 {
            Escape::Literal(b ^ 0x40)
        } else if b == 0x6c {
            Escape::Literal(0x7f)
        } else if b == 0x6d {
            Escape::Literal(0xff)
        } else if (0x68..=0x6b).contains(&b) {
            Escape::Marker(b)
        } else {
            Escape::Invalid(b)
        };
        assert_eq!(unescape(b), expected);
    }
}

#[test]
fn dangling_escape_is_not_a_stream() {
    assert_eq!(zdle_decode(&[0x18]), None);
    assert_eq!(zdle_decode(&[1, 2, 3, 0x18]), None);
}
