use std::collections::VecDeque;

use zmodem::consts::{ZACK, ZBIN, ZBIN32, ZCRCE, ZCRCG, ZCRCQ, ZCRCW, ZDATA, ZEOF, ZFILE, ZFIN, ZHEX, ZRINIT, ZRPOS, ZRQINIT};
use zmodem::device::{Error, SerialDevice};
use zmodem::proto::{FrameEncoding, FrameHeader, FrameType, PacketType};
use zmodem::recv::Receiver;
use zmodem::transfer::receive;
use zmodem::time::Duration;
use zmodem::wire::RecvEnc;

#[derive(Debug, PartialEq)]
enum Fault {
    Exhausted,
    Broken,
}

#[derive(Clone, Copy)]
enum Step {
    Byte(u8),
    Silence,
    Fail,
}

/// A serial line that plays back a script and records what is sent.
struct Line {
    script: VecDeque<Step>,
    sent: Vec<u8>,
    waits: Vec<(u64, u32)>,
    broken_tx: bool,
}

impl Line {
    fn new(bytes: &[u8]) -> Line {
        Line {
            script: bytes.iter().map(|b| Step::Byte(*b)).collect(),
            sent: Vec::new(),
            waits: Vec::new(),
            broken_tx: false,
        }
    }

    fn steps(steps: Vec<Step>) -> Line {
        Line { script: steps.into(), sent: Vec::new(), waits: Vec::new(), broken_tx: false }
    }
}

impl SerialDevice for &mut Line {
    type Error = Fault;

    fn send(&mut self, byte: u8) -> Result<(), Fault> {
        if self.broken_tx {
            return Err(Fault::Broken);
        }
        self.sent.push(byte);
        Ok(())
    }

    fn recv(&mut self, timeout: Duration) -> Result<Option<u8>, Fault> {
        self.waits.push((timeout.as_secs(), timeout.subsec()));
        match self.script.pop_front() {
            Some(Step::Byte(b)) => Ok(Some(b)),
            Some(Step::Silence) => Ok(None),
            Some(Step::Fail) => Err(Fault::Broken),
            None => Err(Fault::Exhausted),
        }
    }
}

fn crc16_of(bytes: &[u8]) -> u16 {
    crc::Crc::<u16>::new(&crc::CRC_16_XMODEM).checksum(bytes)
}

fn crc32_of(bytes: &[u8]) -> u32 {
    crc::Crc::<u32>::new(&crc::CRC_32_ISO_HDLC).checksum(bytes)
}

fn hex_digits(bytes: &[u8]) -> Vec<u8> {
    let mut out = Vec::new();
    for b in bytes {
        out.extend_from_slice(format!("{:02x}", b).as_bytes());
    }
    out
}

/// A sender's escaping: `ZDLE` and the flow-control bytes are sent as
/// `ZDLE` and the byte with bit 6 flipped, the rubouts by their own codes.
fn escape(bytes: &[u8]) -> Vec<u8> {
    let mut out = Vec::new();
    for b in bytes {
        match *b {
            0x18 | 0x10 | 0x11 | 0x13 | 0x90 | 0x91 | 0x93 => {
                out.push(0x18);
                out.push(*b ^ 0x40);
            }
            0x7f => out.extend_from_slice(&[0x18, 0x6c]),
            0xff => out.extend_from_slice(&[0x18, 0x6d]),
            other => out.push(other),
        }
    }
    out
}

/// A hexadecimal frame as a sender puts it on the line; `xon` says
/// whether the line end carries the `XON`.
fn hex_frame(kind: u8, data: [u8; 4], xon: bool) -> Vec<u8> {
    let body = [kind, data[0], data[1], data[2], data[3]];
    let mut out = vec![0x2a, 0x2a, 0x18, b'B'];
    out.extend(hex_digits(&body));
    out.extend(hex_digits(&crc16_of(&body).to_be_bytes()));
    out.extend_from_slice(&[0x0d, 0x8a]);
    if xon {
        out.push(0x11);
    }
    out
}

fn bin16_frame(kind: u8, data: [u8; 4]) -> Vec<u8> {
    let body = [kind, data[0], data[1], data[2], data[3]];
    let mut out = vec![0x2a, 0x18, b'A'];
    out.extend(escape(&body));
    out.extend(escape(&crc16_of(&body).to_be_bytes()));
    out
}

fn bin32_frame(kind: u8, data: [u8; 4]) -> Vec<u8> {
    let body = [kind, data[0], data[1], data[2], data[3]];
    let mut out = vec![0x2a, 0x18, b'C'];
    out.extend(escape(&body));
    out.extend(escape(&crc32_of(&body).to_be_bytes()));
    out
}

fn subpacket16(payload: &[u8], marker: u8) -> Vec<u8> {
    let mut covered = payload.to_vec();
    covered.push(marker);
    let mut out = escape(payload);
    out.extend_from_slice(&[0x18, marker]);
    out.extend(escape(&crc16_of(&covered).to_be_bytes()));
    out
}

fn subpacket32(payload: &[u8], marker: u8) -> Vec<u8> {
    let mut covered = payload.to_vec();
    covered.push(marker);
    let mut out = escape(payload);
    out.extend_from_slice(&[0x18, marker]);
    out.extend(escape(&crc32_of(&covered).to_be_bytes()));
    out
}

/// What the receiver puts on the line for a header of its own.
fn reply(kind: u8, data: [u8; 4]) -> Vec<u8> {
    hex_frame(kind, data, true)
}

fn long_wait() -> (u64, u32) {
    (600, 0)
}

fn short_wait() -> (u64, u32) {
    (0, 500_000_000)
}

// ---------------------------------------------------------------- sending

#[test]
fn zrinit_frame_is_bit_exact() {
    let mut line = Line::new(&[]);
    let mut rx = Receiver::new(&mut line);
    rx.send_zrinit().unwrap();
    drop(rx);
    // type 01, data 00000000, CRC-16 of 01 00 00 00 00.
    let crc = crc16_of(&[1, 0, 0, 0, 0]);
    let mut expected = vec![0x2a, 0x2a, 0x18, 0x42];
    expected.extend_from_slice(b"0100000000");
    expected.extend(hex_digits(&crc.to_be_bytes()));
    expected.extend_from_slice(&[0x0d, 0x8a, 0x11]);
    assert_eq!(line.sent, expected);
    assert_eq!(line.sent.len(), 21);
    assert!(line.waits.is_empty());
}

#[test]
fn zrpos_carries_its_count_low_byte_first() {
    let mut line = Line::new(&[]);
    let mut rx = Receiver::new(&mut line);
    rx.send_zrpos(0x0102_0304).unwrap();
    drop(rx);
    assert_eq!(line.sent, reply(ZRPOS, [0x04, 0x03, 0x02, 0x01]));
    assert_eq!(&line.sent[4..14], b"0904030201");
}

#[test]
fn zfin_frame_keeps_the_xon() {
    let mut line = Line::new(&[]);
    let mut rx = Receiver::new(&mut line);
    rx.send_zfin().unwrap();
    drop(rx);
    assert_eq!(line.sent, reply(ZFIN, [0, 0, 0, 0]));
    assert_eq!(*line.sent.last().unwrap(), 0x11);
}

#[test]
fn binary_frame_is_sent_raw_with_crc16() {
    let mut line = Line::new(&[]);
    let mut rx = Receiver::new(&mut line);
    let frame = FrameHeader::new(FrameEncoding(ZBIN), FrameType(ZACK)).set_flags(0xa1b2_c3d4);
    rx.send_frame(frame).unwrap();
    drop(rx);
    let body = [ZACK, 0xa1, 0xb2, 0xc3, 0xd4];
    let mut expected = vec![0x2a, 0x2a, 0x18, b'A'];
    expected.extend_from_slice(&body);
    expected.extend_from_slice(&crc16_of(&body).to_be_bytes());
    expected.extend_from_slice(&[0x0d, 0x8a, 0x11]);
    assert_eq!(line.sent, expected);
}

#[test]
fn send_hex_and_send_spell_bytes() {
    let mut line = Line::new(&[]);
    let mut rx = Receiver::new(&mut line);
    rx.send_hex(0x8a).unwrap();
    rx.send(0x8a, false).unwrap();
    rx.send(0x0f, true).unwrap();
    drop(rx);
    assert_eq!(line.sent, vec![b'8', b'a', 0x8a, b'0', b'f']);
}

#[test]
fn send_failure_is_a_device_error() {
    let mut line = Line::new(&[]);
    line.broken_tx = true;
    let mut rx = Receiver::new(&mut line);
    assert!(matches!(rx.send_zrinit(), Err(Error::Device(Fault::Broken))));
    drop(rx);
    assert!(line.sent.is_empty());
}

// ------------------------------------------------------- receiving bytes

#[test]
fn recv_esc_undoes_escapes() {
    let mut line = Line::new(&[0x41, 0x18, 0x58, 0x18, 0x6c, 0x18, 0x6d, 0x18, 0x51]);
    let mut rx = Receiver::new(&mut line);
    let t = Duration::from_secs(1);
    assert!(matches!(rx.recv_esc(t), Ok(0x41)));
    assert!(matches!(rx.recv_esc(t), Ok(0x18)));
    assert!(matches!(rx.recv_esc(t), Ok(0x7f)));
    assert!(matches!(rx.recv_esc(t), Ok(0xff)));
    assert!(matches!(rx.recv_esc(t), Ok(0x11)));
    assert!(matches!(rx.recv_esc(t), Err(Error::Device(Fault::Exhausted))));
}

#[test]
fn recv_esc_rejects_markers_and_junk() {
    let mut line = Line::new(&[0x18, 0x69, 0x18, 0x20]);
    let mut rx = Receiver::new(&mut line);
    let t = Duration::from_secs(1);
    assert!(matches!(rx.recv_esc(t), Err(Error::InvalidEscape(0x69))));
    assert!(matches!(rx.recv_esc(t), Err(Error::InvalidEscape(0x20))));
}

#[test]
fn recv_hex_ignores_parity() {
    let mut line = Line::new(&[b'8', b'a', b'8' | 0x80, b'a' | 0x80, b'0', b'G', b'z', b'1']);
    let mut rx = Receiver::new(&mut line);
    let t = Duration::from_secs(1);
    assert!(matches!(rx.recv_hex(t), Ok(0x8a)));
    assert!(matches!(rx.recv_hex(t), Ok(0x8a)));
    assert!(matches!(rx.recv_hex(t), Err(Error::InvalidHex(b'G'))));
    assert!(matches!(rx.recv_hex(t), Err(Error::InvalidHex(b'z'))));
}

#[test]
fn recv_byte_reads_as_told() {
    let mut line = Line::new(&[0x18, b'4', b'1', 0x18, 0x58]);
    let mut rx = Receiver::new(&mut line);
    let t = Duration::from_secs(1);
    assert!(matches!(rx.recv_byte(RecvEnc::Raw, t), Ok(0x18)));
    assert!(matches!(rx.recv_byte(RecvEnc::Hex, t), Ok(0x41)));
    assert!(matches!(rx.recv_byte(RecvEnc::Esc, t), Ok(0x18)));
}

#[test]
fn recv_reads_several_bytes() {
    let mut line = Line::new(&[b'0', b'1', b'f', b'f', 1, 0x18, 0x58, 3, 4]);
    let mut rx = Receiver::new(&mut line);
    let t = Duration::from_secs(1);
    assert!(matches!(rx.recv::<2>(RecvEnc::Hex, t), Ok([0x01, 0xff])));
    assert!(matches!(rx.recv::<4>(RecvEnc::Esc, t), Ok([1, 0x18, 3, 4])));
    assert!(matches!(rx.recv::<1>(RecvEnc::Raw, t), Err(Error::Device(Fault::Exhausted))));
}

#[test]
fn silence_is_timed_out() {
    let mut line = Line::steps(vec![Step::Byte(b'0'), Step::Silence]);
    let mut rx = Receiver::new(&mut line);
    assert!(matches!(rx.recv_hex(Duration::from_millis(5)), Err(Error::TimedOut)));
    drop(rx);
    assert_eq!(line.waits, vec![(0, 5_000_000), (0, 5_000_000)]);
}

#[test]
fn read_limit_ends_reading() {
    let mut line = Line::new(&[1, 2, 3, 4]);
    let mut rx = Receiver::with_read_limit(&mut line, 2);
    let t = Duration::from_secs(1);
    assert_eq!(rx.remaining_reads(), 2);
    assert!(matches!(rx.recv_raw(t), Ok(1)));
    assert!(matches!(rx.recv_raw(t), Ok(2)));
    assert_eq!(rx.remaining_reads(), 0);
    assert!(matches!(rx.recv_raw(t), Err(Error::TimedOut)));
    drop(rx);
    // The line was not asked a third time.
    assert_eq!(line.waits.len(), 2);
    assert_eq!(line.script.len(), 2);
}

// ----------------------------------------------------- receiving headers

#[test]
fn hex_header_is_read() {
    let mut wire = vec![0x00, 0x55, 0x2a, 0x07];
    wire.extend(hex_frame(ZRQINIT, [1, 2, 3, 4], true));
    wire.push(0x99);
    let mut line = Line::new(&wire);
    let mut rx = Receiver::new(&mut line);
    let h = rx.receive_frame_header(Duration::from_millis(500)).unwrap();
    assert_eq!(h.encoding, FrameEncoding(ZHEX));
    assert_eq!(h.frame_type, FrameType(ZRQINIT));
    assert_eq!(h.data, [1, 2, 3, 4]);
    assert_eq!(rx.crc_error_count(), 0);
    drop(rx);
    // Everything up to the XON was read, the byte behind it was not.
    assert_eq!(line.script.len(), 1);
    // The hunt waits the caller's time, the header itself the long time.
    assert_eq!(line.waits[..7], [short_wait(); 7]);
    assert!(line.waits[7..].iter().all(|w| *w == long_wait()));
}

#[test]
fn zack_and_zfin_have_no_xon() {
    for kind in [ZACK, ZFIN] {
        let mut wire = hex_frame(kind, [0; 4], true);
        wire.push(0x77);
        let mut line = Line::new(&wire);
        let mut rx = Receiver::new(&mut line);
        let h = rx.receive_frame_header(Duration::from_secs(600)).unwrap();
        assert_eq!(h.frame_type, FrameType(kind));
        drop(rx);
        // The XON and the byte behind it are still on the line.
        assert_eq!(line.script.len(), 2);
    }
}

#[test]
fn single_zpad_is_enough() {
    let mut wire = vec![0x2a, 0x18, b'B'];
    wire.extend(hex_digits(&[ZEOF, 0, 0, 0, 0, 0, 0]));
    wire.extend_from_slice(&[0x0d, 0x0a, 0x11]);
    let mut line = Line::new(&wire);
    let mut rx = Receiver::new(&mut line);
    let h = rx.receive_frame_header(Duration::from_secs(600)).unwrap();
    assert_eq!(h.frame_type, FrameType(ZEOF));
    // CRC-16 of 0b 00 00 00 00 is not zero: the mismatch is counted.
    assert_eq!(rx.crc_error_count(), 1);
}

#[test]
fn zdle_must_follow_zpad_directly() {
    // ZPAD, junk, ZDLE does not start a header; the next ZPAD ZDLE does.
    let mut wire = vec![0x2a, 0x2a, 0x00, 0x18, b'B', b'0'];
    wire.extend(bin16_frame(ZDATA, [9, 8, 7, 6]));
    let mut line = Line::new(&wire);
    let mut rx = Receiver::new(&mut line);
    let h = rx.receive_frame_header(Duration::from_secs(600)).unwrap();
    assert_eq!(h.encoding, FrameEncoding(ZBIN));
    assert_eq!(h.frame_type, FrameType(ZDATA));
    assert_eq!(h.data, [9, 8, 7, 6]);
}

#[test]
fn binary_headers_are_unescaped() {
    let mut line = Line::new(&bin16_frame(ZDATA, [0x18, 0x11, 0x7f, 0xff]));
    let mut rx = Receiver::new(&mut line);
    let h = rx.receive_frame_header(Duration::from_secs(600)).unwrap();
    assert_eq!(h.encoding, FrameEncoding(ZBIN));
    assert_eq!(h.data, [0x18, 0x11, 0x7f, 0xff]);
    assert_eq!(rx.crc_error_count(), 0);
    drop(rx);
    assert!(line.script.is_empty());

    let mut line = Line::new(&bin32_frame(ZFILE, [0x18, 0, 0, 0x13]));
    let mut rx = Receiver::new(&mut line);
    let h = rx.receive_frame_header(Duration::from_secs(600)).unwrap();
    assert_eq!(h.encoding, FrameEncoding(ZBIN32));
    assert_eq!(h.frame_type, FrameType(ZFILE));
    assert_eq!(h.data, [0x18, 0, 0, 0x13]);
    assert_eq!(rx.crc_error_count(), 0);
    drop(rx);
    assert!(line.script.is_empty());
}

#[test]
fn bad_frame_check_is_counted_not_fatal() {
    let mut wire = bin32_frame(ZDATA, [0, 0, 0, 0]);
    let last = wire.len() - 1;
    wire[last] ^= 0x01;
    wire.extend(hex_frame(ZEOF, [0, 0, 0, 0], true));
    let mut line = Line::new(&wire);
    let mut rx = Receiver::new(&mut line);
    assert!(rx.receive_frame_header(Duration::from_secs(600)).is_ok());
    assert_eq!(rx.crc_error_count(), 1);
    assert!(rx.receive_frame_header(Duration::from_secs(600)).is_ok());
    assert_eq!(rx.crc_error_count(), 1);
}

#[test]
fn unreadable_encoding_is_rejected() {
    for e in [b'D', b'E', 0x00, b'b'] {
        let mut line = Line::new(&[0x2a, 0x2a, 0x18, e, 1, 2, 3]);
        let mut rx = Receiver::new(&mut line);
        match rx.receive_frame_header(Duration::from_secs(600)) {
            Err(Error::InvalidFrameEncoding(found)) => assert_eq!(found, FrameEncoding(e)),
            other => panic!("{:?}", other),
        }
        drop(rx);
        assert_eq!(line.script.len(), 3);
    }
}

#[test]
fn raw_zero_bytes_are_no_hex_header() {
    let wire = [0x2a, 0x2a, 0x18, 0x42, 0, 0, 0, 0, 0, 0, 0, 0, 0, 0x0d, 0x8a, 0x11];
    let mut line = Line::new(&wire);
    let mut rx = Receiver::new(&mut line);
    assert!(matches!(
        rx.receive_frame_header(Duration::from_secs(600)),
        Err(Error::InvalidHex(0))
    ));
}

#[test]
fn header_errors_inside_fields() {
    let mut line = Line::new(&[0x2a, 0x18, b'B', b'0', b'1', b'0', b'x']);
    let mut rx = Receiver::new(&mut line);
    assert!(matches!(
        rx.receive_frame_header(Duration::from_secs(600)),
        Err(Error::InvalidHex(b'x'))
    ));
    let mut line = Line::new(&[0x2a, 0x18, b'A', 0x0a, 0x18, 0x69]);
    let mut rx = Receiver::new(&mut line);
    assert!(matches!(
        rx.receive_frame_header(Duration::from_secs(600)),
        Err(Error::InvalidEscape(0x69))
    ));
}

#[test]
fn header_cut_short_by_silence_or_failure() {
    let mut steps: Vec<Step> = hex_frame(ZFILE, [0; 4], true)[..10].iter().map(|b| Step::Byte(*b)).collect();
    steps.push(Step::Silence);
    let mut line = Line::steps(steps);
    let mut rx = Receiver::new(&mut line);
    assert!(matches!(rx.receive_frame_header(Duration::from_secs(600)), Err(Error::TimedOut)));

    let mut line = Line::steps(vec![Step::Byte(0x2a), Step::Fail]);
    let mut rx = Receiver::new(&mut line);
    assert!(matches!(
        rx.receive_frame_header(Duration::from_secs(600)),
        Err(Error::Device(Fault::Broken))
    ));
}

#[test]
fn what_the_receiver_sends_a_receiver_reads() {
    let mut out = Line::new(&[]);
    let mut tx = Receiver::new(&mut out);
    tx.send_zrinit().unwrap();
    tx.send_zrpos(0x0a0b_0c0d).unwrap();
    tx.send_frame(FrameHeader::new(FrameEncoding(ZHEX), FrameType(ZDATA)).set_flags(0x1800_7fff))
        .unwrap();
    drop(tx);
    let mut back = Line::new(&out.sent);
    let mut rx = Receiver::new(&mut back);
    let h = rx.receive_frame_header(Duration::from_secs(1)).unwrap();
    assert_eq!((h.encoding, h.frame_type, h.data), (FrameEncoding(ZHEX), FrameType(ZRINIT), [0; 4]));
    let h = rx.receive_frame_header(Duration::from_secs(1)).unwrap();
    assert_eq!(
        (h.encoding, h.frame_type, h.data),
        (FrameEncoding(ZHEX), FrameType(ZRPOS), [0x0d, 0x0c, 0x0b, 0x0a])
    );
    let h = rx.receive_frame_header(Duration::from_secs(1)).unwrap();
    assert_eq!(
        (h.encoding, h.frame_type, h.data),
        (FrameEncoding(ZHEX), FrameType(ZDATA), [0x18, 0x00, 0x7f, 0xff])
    );
    assert_eq!(rx.crc_error_count(), 0);
    drop(rx);
    assert!(back.script.is_empty());
}

// -------------------------------------------------- receiving subpackets

#[test]
fn empty_zcrcw_subpacket() {
    // 18 6b and the CRC-16 of the single byte 6b.
    let crc = crc16_of(&[0x6b]).to_be_bytes();
    let wire = [0x18, 0x6b, crc[0], crc[1]];
    assert_eq!(subpacket16(&[], ZCRCW), wire);
    let mut line = Line::new(&wire);
    let mut rx = Receiver::new(&mut line);
    let mut buf = [0xeeu8; 1024];
    let (kind, len) = rx.receive_data_packet(FrameEncoding(ZHEX), &mut buf).unwrap();
    assert_eq!(kind, PacketType(ZCRCW));
    assert_eq!(len, 0);
    assert_eq!(rx.crc_error_count(), 0);
    assert!(buf.iter().all(|b| *b == 0xee));
}

#[test]
fn subpacket_payload_is_unescaped() {
    let payload = [0x18, 0x7f, 0xff, 0x11, 0x00, 0x41, 0x13, 0x91];
    let wire = subpacket16(&payload, ZCRCG);
    assert_eq!(&wire[..6], &[0x18, 0x58, 0x18, 0x6c, 0x18, 0x6d]);
    let mut line = Line::new(&wire);
    let mut rx = Receiver::new(&mut line);
    let mut buf = [0u8; 2048];
    let (kind, len) = rx.receive_data_packet(FrameEncoding(ZBIN), &mut buf).unwrap();
    assert_eq!(kind, PacketType(ZCRCG));
    assert_eq!(&buf[..len], &payload);
    assert_eq!(rx.crc_error_count(), 0);
    drop(rx);
    assert!(line.script.is_empty());
}

#[test]
fn subpacket_with_crc32() {
    let payload: Vec<u8> = (0..=255u8).collect();
    let wire = subpacket32(&payload, ZCRCE);
    let mut line = Line::new(&wire);
    let mut rx = Receiver::new(&mut line);
    let mut buf = [0u8; 1024];
    let (kind, len) = rx.receive_data_packet(FrameEncoding(ZBIN32), &mut buf).unwrap();
    assert_eq!(kind, PacketType(ZCRCE));
    assert_eq!(&buf[..len], &payload[..]);
    assert_eq!(rx.crc_error_count(), 0);
    drop(rx);
    assert!(line.script.is_empty());
}

#[test]
fn subpacket_crc_mismatch_is_counted() {
    for flip in 0..8 {
        let payload = [1u8, 2, 3, 4, 5];
        let mut wire = subpacket16(&payload, ZCRCE);
        wire[2] ^= 1 << flip;
        let mut line = Line::new(&wire);
        let mut rx = Receiver::new(&mut line);
        let mut buf = [0u8; 1024];
        match rx.receive_data_packet(FrameEncoding(ZBIN), &mut buf) {
            Ok((kind, len)) => {
                assert_eq!(kind, PacketType(ZCRCE));
                assert_eq!(len, 5);
                assert_eq!(rx.crc_error_count(), 1);
            }
            // Flipping 0x03 to 0x18 would start an escape; none of the
            // eight flips of 0x03 does.
            other => panic!("{:?}", other),
        }
    }
}

#[test]
fn full_subpacket_of_1024_bytes() {
    let payload: Vec<u8> = (0..1024u32).map(|i| (i % 251) as u8).collect();
    let wire = subpacket16(&payload, ZCRCG);
    let mut line = Line::new(&wire);
    let mut rx = Receiver::new(&mut line);
    let mut buf = [0u8; 0x1000];
    let (kind, len) = rx.receive_data_packet(FrameEncoding(ZBIN), &mut buf).unwrap();
    assert_eq!(kind, PacketType(ZCRCG));
    assert_eq!(len, 1024);
    assert_eq!(&buf[..1024], &payload[..]);
    assert!(buf[1024..].iter().all(|b| *b == 0));
    assert_eq!(rx.crc_error_count(), 0);
}

#[test]
fn subpacket_of_1025_bytes_overflows() {
    let mut payload = vec![0x55u8; 1025];
    let mut line = Line::new(&subpacket16(&payload, ZCRCG));
    let mut rx = Receiver::new(&mut line);
    let mut buf = [0u8; 0x1000];
    assert!(matches!(rx.receive_data_packet(FrameEncoding(ZBIN), &mut buf), Err(Error::Overflow)));
    payload[1024] = 0x18;
    let mut line = Line::new(&subpacket16(&payload, ZCRCG));
    let mut rx = Receiver::new(&mut line);
    assert!(matches!(rx.receive_data_packet(FrameEncoding(ZBIN), &mut buf), Err(Error::Overflow)));
}

#[test]
fn invalid_escape_in_payload() {
    let mut line = Line::new(&[1, 2, 0x18, 0x20, 3]);
    let mut rx = Receiver::new(&mut line);
    let mut buf = [0u8; 1024];
    assert!(matches!(
        rx.receive_data_packet(FrameEncoding(ZBIN), &mut buf),
        Err(Error::InvalidEscape(0x20))
    ));
    // After a full buffer only a marker may follow the ZDLE.
    let mut wire = vec![7u8; 1024];
    wire.extend_from_slice(&[0x18, 0x00]);
    let mut line = Line::new(&wire);
    let mut rx = Receiver::new(&mut line);
    assert!(matches!(
        rx.receive_data_packet(FrameEncoding(ZBIN), &mut buf),
        Err(Error::InvalidEscape(0x00))
    ));
}

#[test]
fn receive_data_fills_the_buffer_and_says_so() {
    let mut line = Line::new(&[1, 2, 0x18, 0x58, 4, 5, 6]);
    let mut rx = Receiver::new(&mut line);
    let mut small = [0u8; 4];
    assert!(matches!(rx.receive_data(&mut small), Ok(None)));
    assert_eq!(small, [1, 2, 0x18, 4]);
    let mut next = [0u8; 8];
    let mut line = Line::new(&[9, 0x18, 0x6a, 1]);
    let mut rx = Receiver::new(&mut line);
    assert!(matches!(rx.receive_data(&mut next), Ok(Some((0x6a, 1)))));
    assert_eq!(next, [9, 0, 0, 0, 0, 0, 0, 0]);
}

#[test]
fn over_and_out_on_its_own() {
    let mut line = Line::new(b"OOX");
    let mut rx = Receiver::new(&mut line);
    assert!(rx.receive_over_and_out().is_ok());
    drop(rx);
    assert_eq!(line.script.len(), 1);
    assert_eq!(line.waits, vec![long_wait(); 2]);

    let mut line = Line::new(b"XO");
    let mut rx = Receiver::new(&mut line);
    assert!(matches!(rx.receive_over_and_out(), Err(Error::UnexpectedByte(b'X'))));
    drop(rx);
    assert_eq!(line.script.len(), 1);

    let mut line = Line::steps(vec![Step::Byte(b'O'), Step::Silence]);
    let mut rx = Receiver::new(&mut line);
    assert!(matches!(rx.receive_over_and_out(), Err(Error::TimedOut)));
}

// ---------------------------------------------------------------- sessions

fn minimal_session() -> Vec<u8> {
    let mut wire = hex_frame(ZRQINIT, [0; 4], true);
    wire.extend(hex_frame(ZFILE, [0; 4], true));
    wire.extend(subpacket16(&[], ZCRCW));
    wire.extend(hex_frame(ZEOF, [0; 4], true));
    wire.extend(hex_frame(ZFIN, [0; 4], false));
    wire.extend_from_slice(b"OO");
    wire
}

#[test]
fn session_with_one_empty_file() {
    let mut line = Line::new(&minimal_session());
    let mut output = [0xaau8; 16];
    let written = receive(&mut line, &mut output).unwrap();
    assert_eq!(written, 0);
    assert_eq!(output, [0xaau8; 16]);
    assert!(line.script.is_empty());
    let mut expected = reply(ZRINIT, [0; 4]);
    expected.extend(reply(ZRINIT, [0; 4]));
    expected.extend(reply(ZRPOS, [0; 4]));
    expected.extend(reply(ZRINIT, [0; 4]));
    expected.extend(reply(ZFIN, [0; 4]));
    assert_eq!(line.sent, expected);
}

#[test]
fn zrqinit_is_answered_with_zrinit() {
    let mut line = Line::new(&hex_frame(ZRQINIT, [0; 4], true));
    let mut output = [0u8; 4];
    assert!(matches!(receive(&mut line, &mut output), Err(Error::Device(Fault::Exhausted))));
    let mut expected = reply(ZRINIT, [0; 4]);
    expected.extend(reply(ZRINIT, [0; 4]));
    assert_eq!(line.sent, expected);
}

#[test]
fn zfile_is_followed_by_metadata_and_zrpos() {
    let mut wire = hex_frame(ZFILE, [0; 4], true);
    wire.extend(subpacket16(b"name\x0012 0 0\x00", ZCRCW));
    let mut line = Line::new(&wire);
    let mut output = [0u8; 4];
    assert!(matches!(receive(&mut line, &mut output), Err(Error::Device(Fault::Exhausted))));
    let mut expected = reply(ZRINIT, [0; 4]);
    expected.extend(reply(ZRPOS, [0; 4]));
    assert_eq!(line.sent, expected);
    assert!(line.script.is_empty());
    assert_eq!(output, [0u8; 4]);
}

#[test]
fn zeof_brings_zrinit_again() {
    let mut wire = hex_frame(ZFILE, [0; 4], true);
    wire.extend(subpacket16(&[], ZCRCW));
    wire.extend(hex_frame(ZEOF, [0; 4], true));
    let mut line = Line::new(&wire);
    let mut output = [0u8; 4];
    assert!(matches!(receive(&mut line, &mut output), Err(Error::Device(Fault::Exhausted))));
    let mut expected = reply(ZRINIT, [0; 4]);
    expected.extend(reply(ZRPOS, [0; 4]));
    expected.extend(reply(ZRINIT, [0; 4]));
    assert_eq!(line.sent, expected);
    // After the first ZFILE every wait is the long one.
    assert_eq!(*line.waits.last().unwrap(), long_wait());
    assert_eq!(line.waits[0], short_wait());
}

#[test]
fn zfin_is_answered_and_oo_is_read() {
    let mut wire = hex_frame(ZFIN, [0; 4], false);
    wire.extend_from_slice(&[0x4f, 0x4f]);
    let mut line = Line::new(&wire);
    let mut output = [0u8; 4];
    assert!(matches!(receive(&mut line, &mut output), Ok(0)));
    let mut expected = reply(ZRINIT, [0; 4]);
    expected.extend(reply(ZFIN, [0; 4]));
    assert_eq!(line.sent, expected);
    assert!(line.script.is_empty());
}

#[test]
fn over_and_out_must_be_two_o() {
    let mut wire = hex_frame(ZFIN, [0; 4], false);
    wire.extend_from_slice(&[0x4f, 0x50]);
    let mut line = Line::new(&wire);
    let mut output = [0u8; 4];
    assert!(matches!(receive(&mut line, &mut output), Err(Error::UnexpectedByte(0x50))));
    // A sender that puts the XON behind its ZFIN breaks the ending.
    let mut wire = hex_frame(ZFIN, [0; 4], true);
    wire.extend_from_slice(&[0x4f, 0x4f]);
    let mut line = Line::new(&wire);
    assert!(matches!(receive(&mut line, &mut output), Err(Error::UnexpectedByte(0x11))));
}

fn file_session(payload: &[u8], chunk: usize, wide: bool) -> Vec<u8> {
    let mut wire = hex_frame(ZRQINIT, [0; 4], true);
    wire.extend(if wide { bin32_frame(ZFILE, [0; 4]) } else { bin16_frame(ZFILE, [0; 4]) });
    let meta = b"file.bin\x00256 0 0\x00";
    wire.extend(if wide { subpacket32(meta, ZCRCW) } else { subpacket16(meta, ZCRCW) });
    wire.extend(if wide { bin32_frame(ZDATA, [0; 4]) } else { bin16_frame(ZDATA, [0; 4]) });
    let chunks: Vec<&[u8]> = payload.chunks(chunk).collect();
    for (i, c) in chunks.iter().enumerate() {
        let marker = if i + 1 == chunks.len() { ZCRCE } else { ZCRCG };
        wire.extend(if wide { subpacket32(c, marker) } else { subpacket16(c, marker) });
    }
    wire.extend(hex_frame(ZEOF, (payload.len() as u32).to_le_bytes(), true));
    wire.extend(hex_frame(ZFIN, [0; 4], false));
    wire.extend_from_slice(b"OO");
    wire
}

#[test]
fn session_with_256_bytes_in_two_subpackets() {
    let payload: Vec<u8> = (0..=255u8).collect();
    for wide in [false, true] {
        let mut line = Line::new(&file_session(&payload, 128, wide));
        let mut output = [0xaau8; 300];
        let written = receive(&mut line, &mut output).unwrap();
        assert_eq!(written, 256);
        assert_eq!(&output[..256], &payload[..]);
        assert!(output[256..].iter().all(|b| *b == 0xaa));
        assert!(line.script.is_empty());
        let mut expected = reply(ZRINIT, [0; 4]);
        expected.extend(reply(ZRINIT, [0; 4]));
        expected.extend(reply(ZRPOS, [0; 4]));
        expected.extend(reply(ZRINIT, [0; 4]));
        expected.extend(reply(ZFIN, [0; 4]));
        assert_eq!(line.sent, expected);
    }
}

#[test]
fn session_is_reproducible() {
    let payload: Vec<u8> = (0..3000u32).map(|i| (i * 7 % 256) as u8).collect();
    let wire = file_session(&payload, 1024, true);
    let mut first = Line::new(&wire);
    let mut out1 = vec![0u8; 4096];
    let n1 = receive(&mut first, &mut out1).unwrap();
    let mut second = Line::new(&wire);
    let mut out2 = vec![0u8; 4096];
    let n2 = receive(&mut second, &mut out2).unwrap();
    assert_eq!(n1, 3000);
    assert_eq!(n1, n2);
    assert_eq!(out1, out2);
    assert_eq!(&out1[..3000], &payload[..]);
    assert_eq!(first.sent, second.sent);
}

#[test]
fn two_data_frames_append() {
    let mut wire = bin16_frame(ZFILE, [0; 4]);
    wire.extend(subpacket16(&[], ZCRCW));
    wire.extend(bin16_frame(ZDATA, [0; 4]));
    wire.extend(subpacket16(b"abc", ZCRCE));
    wire.extend(bin16_frame(ZDATA, [3, 0, 0, 0]));
    wire.extend(subpacket16(b"", ZCRCG));
    wire.extend(subpacket16(b"defg", ZCRCE));
    wire.extend(hex_frame(ZEOF, [7, 0, 0, 0], true));
    wire.extend(hex_frame(ZFIN, [0; 4], false));
    wire.extend_from_slice(b"OO");
    let mut line = Line::new(&wire);
    let mut output = [0u8; 7];
    assert!(matches!(receive(&mut line, &mut output), Ok(7)));
    assert_eq!(&output, b"abcdefg");
}

#[test]
fn data_beyond_the_output_overflows() {
    let mut wire = bin16_frame(ZFILE, [0; 4]);
    wire.extend(subpacket16(&[], ZCRCW));
    wire.extend(bin16_frame(ZDATA, [0; 4]));
    wire.extend(subpacket16(b"abc", ZCRCG));
    wire.extend(subpacket16(b"de", ZCRCE));
    let mut line = Line::new(&wire);
    let mut output = [0u8; 4];
    assert!(matches!(receive(&mut line, &mut output), Err(Error::Overflow)));
    assert_eq!(&output[..3], b"abc");
}

#[test]
fn failed_frame_checks_are_counted_through_a_session() {
    let payload: Vec<u8> = (0..64u8).collect();
    let mut wire = bin16_frame(ZFILE, [0; 4]);
    wire.extend(subpacket16(&[], ZCRCW));
    wire.extend(bin16_frame(ZDATA, [0; 4]));
    let mut damaged = subpacket16(&payload, ZCRCE);
    damaged[5] ^= 0x04;
    wire.extend(damaged);
    wire.extend(hex_frame(ZEOF, [64, 0, 0, 0], true));
    let mut fin = hex_frame(ZFIN, [0; 4], false);
    fin[5] = b'9';
    wire.extend(fin);
    wire.extend_from_slice(b"OO");
    let mut line = Line::new(&wire);
    let mut rx = Receiver::new(&mut line);
    let mut output = [0u8; 64];
    // The damaged data is taken as it came, as is the header whose type
    // was changed from 08 to 09: a ZRPOS, which an idle receiver rejects.
    match rx.receive(&mut output) {
        Err(Error::UnexpectedFrame(h)) => assert_eq!(h.frame_type, FrameType(ZRPOS)),
        other => panic!("{:?}", other),
    }
    assert_eq!(rx.crc_error_count(), 2);
    let mut expected = payload.clone();
    expected[5] ^= 0x04;
    assert_eq!(&output[..], &expected[..]);
}

#[test]
fn unexpected_frames_end_the_session() {
    let mut line = Line::new(&hex_frame(ZDATA, [0; 4], true));
    let mut output = [0u8; 4];
    match receive(&mut line, &mut output) {
        Err(Error::UnexpectedFrame(h)) => assert_eq!(h.frame_type, FrameType(ZDATA)),
        other => panic!("{:?}", other),
    }
    let mut wire = hex_frame(ZFILE, [0; 4], true);
    wire.extend(subpacket16(&[], ZCRCW));
    wire.extend(hex_frame(ZFIN, [1, 2, 3, 4], false));
    let mut line = Line::new(&wire);
    match receive(&mut line, &mut output) {
        Err(Error::UnexpectedFrame(h)) => {
            assert_eq!(h.frame_type, FrameType(ZFIN));
            assert_eq!(h.data, [1, 2, 3, 4]);
        }
        other => panic!("{:?}", other),
    }
}

#[test]
fn wrong_markers_end_the_session() {
    let mut wire = hex_frame(ZFILE, [0; 4], true);
    wire.extend(subpacket16(b"meta", ZCRCE));
    let mut line = Line::new(&wire);
    let mut output = [0u8; 4];
    assert!(matches!(receive(&mut line, &mut output), Err(Error::InvalidEscape(ZCRCE))));
    for marker in [ZCRCQ, ZCRCW] {
        let mut wire = hex_frame(ZFILE, [0; 4], true);
        wire.extend(subpacket16(&[], ZCRCW));
        wire.extend(bin16_frame(ZDATA, [0; 4]));
        wire.extend(subpacket16(b"ab", marker));
        let mut line = Line::new(&wire);
        match receive(&mut line, &mut output) {
            Err(Error::InvalidEscape(m)) => assert_eq!(m, marker),
            other => panic!("{:?}", other),
        }
    }
}

#[test]
fn idle_receiver_announces_itself_again_and_again() {
    let mut line = Line::steps(vec![Step::Silence, Step::Silence, Step::Silence, Step::Silence]);
    let mut output = [0u8; 4];
    assert!(matches!(receive(&mut line, &mut output), Err(Error::Device(Fault::Exhausted))));
    let zrinit = reply(ZRINIT, [0; 4]);
    assert_eq!(line.sent.len(), 5 * zrinit.len());
    assert!(line.sent.chunks(zrinit.len()).all(|f| f == &zrinit[..]));
    let starts = line.sent.windows(3).filter(|w| w == &[0x2a, 0x2a, 0x18]).count();
    assert!(starts >= 3);
    assert_eq!(line.waits, vec![short_wait(); 5]);
}

#[test]
fn session_out_of_reads_times_out() {
    let mut line = Line::steps(vec![Step::Silence; 10]);
    let mut rx = Receiver::with_read_limit(&mut line, 3);
    let mut output = [0u8; 4];
    assert!(matches!(rx.receive(&mut output), Err(Error::TimedOut)));
    assert_eq!(rx.remaining_reads(), 0);
    drop(rx);
    // Announced once at the start and once more after each silent read.
    assert_eq!(line.sent.len(), 4 * 21);
    assert_eq!(line.script.len(), 7);
}

#[test]
fn silence_in_mid_transfer_is_fatal() {
    let mut steps: Vec<Step> = hex_frame(ZFILE, [0; 4], true).iter().map(|b| Step::Byte(*b)).collect();
    steps.push(Step::Silence);
    let mut line = Line::steps(steps);
    let mut output = [0u8; 4];
    assert!(matches!(receive(&mut line, &mut output), Err(Error::TimedOut)));
}

#[test]
fn timeout_inside_an_idle_header_starts_the_hunt_anew() {
    // The header is cut in two by a silence: its second half is junk to
    // the new hunt, and the next whole header is taken.
    let frame = hex_frame(ZFIN, [0; 4], false);
    let mut steps: Vec<Step> = frame[..2].iter().map(|b| Step::Byte(*b)).collect();
    steps.push(Step::Silence);
    steps.extend(frame[2..].iter().map(|b| Step::Byte(*b)));
    steps.extend(frame.iter().map(|b| Step::Byte(*b)));
    steps.extend([Step::Byte(b'O'), Step::Byte(b'O')]);
    let mut line = Line::steps(steps);
    let mut output = [0u8; 4];
    assert!(matches!(receive(&mut line, &mut output), Ok(0)));
    assert_eq!(line.sent.len(), 3 * 21);
}
