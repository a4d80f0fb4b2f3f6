use std::collections::VecDeque;

use zmodem::consts::{ZBIN, ZCRCE, ZCRCG, ZCRCW, ZFILE, ZFIN, ZHEX, ZRINIT, ZRQINIT};
use zmodem::device::{Error, SerialDevice};
use zmodem::proto::{FrameEncoding, FrameHeader, FrameType, PacketType};
use zmodem::recv::Receiver;
use zmodem::sender::Sender;
use zmodem::time::Duration;
use zmodem::transfer::receive;
use zmodem::xmodem::Packet;

#[derive(Debug, PartialEq)]
enum Fault {
    Exhausted,
    Broken,
}

#[derive(Clone, Copy, Debug, PartialEq)]
enum Entry {
    Sent(u8),
    Refused,
    Read(Option<u8>),
    Broke,
}

/// A serial line that plays back a script and keeps one journal of what
/// was sent and what was read, in the order in which it happened. After
/// `sends_left` bytes every send is refused.
struct Journal {
    script: VecDeque<u8>,
    entries: Vec<Entry>,
    sends_left: usize,
    reads: usize,
}

impl Journal {
    fn new(bytes: &[u8]) -> Journal {
        Journal {
            script: bytes.iter().copied().collect(),
            entries: Vec::new(),
            sends_left: usize::MAX,
            reads: 0,
        }
    }

    fn sent(&self) -> Vec<u8> {
        self.entries
            .iter()
            .filter_map(|e| match e {
                Entry::Sent(b) => Some(*b),
                _ => None,
            })
            .collect()
    }

    /// The bytes sent before the first read.
    fn sent_before_first_read(&self) -> Vec<u8> {
        self.entries
            .iter()
            .take_while(|e| matches!(e, Entry::Sent(_)))
            .map(|e| match e {
                Entry::Sent(b) => *b,
                _ => 0,
            })
            .collect()
    }
}

impl SerialDevice for &mut Journal {
    type Error = Fault;

    fn send(&mut self, byte: u8) -> Result<(), Fault> {
        if self.sends_left == 0 {
            self.entries.push(Entry::Refused);
            return Err(Fault::Broken);
        }
        self.sends_left -= 1;
        self.entries.push(Entry::Sent(byte));
        Ok(())
    }

    fn recv(&mut self, _timeout: Duration) -> Result<Option<u8>, Fault> {
        self.reads += 1;
        match self.script.pop_front() {
            Some(b) => {
                self.entries.push(Entry::Read(Some(b)));
                Ok(Some(b))
            }
            None => {
                self.entries.push(Entry::Broke);
                Err(Fault::Exhausted)
            }
        }
    }
}

fn crc16_of(bytes: &[u8]) -> u16 {
    crc::Crc::<u16>::new(&crc::CRC_16_XMODEM).checksum(bytes)
}

fn hex_digits(bytes: &[u8]) -> Vec<u8> {
    let mut out = Vec::new();
    for b in bytes {
        out.extend_from_slice(format!("{:02x}", b).as_bytes());
    }
    out
}

/// A hexadecimal header with the line end `ending` behind it.
fn hex_header(kind: u8, ending: &[u8]) -> Vec<u8> {
    let body = [kind, 0, 0, 0, 0];
    let mut out = vec![0x2a, 0x2a, 0x18, b'B'];
    out.extend(hex_digits(&body));
    out.extend(hex_digits(&crc16_of(&body).to_be_bytes()));
    out.extend_from_slice(ending);
    out
}

/// The frame that the receiver sends for `kind`: it ends every frame
/// with carriage return, line feed and `XON`.
fn reply(kind: u8) -> Vec<u8> {
    hex_header(kind, &[0x0d, 0x8a, 0x11])
}

/// A subpacket of plain payload bytes with a 16-bit frame check.
fn subpacket(payload: &[u8], marker: u8) -> Vec<u8> {
    let mut checked = payload.to_vec();
    checked.push(marker);
    let crc = crc16_of(&checked).to_be_bytes();
    let mut out = payload.to_vec();
    out.extend_from_slice(&[0x18, marker, crc[0], crc[1]]);
    out
}

// ------------------------------------------------- buffers of any length

#[test]
fn short_buffer_takes_a_payload_of_its_length() {
    let mut line = Journal::new(&subpacket(&[1, 2, 3, 4], ZCRCW));
    let mut rx = Receiver::new(&mut line);
    let mut buf = [0xeeu8; 4];
    let (kind, len) = rx.receive_data_packet(FrameEncoding(ZBIN), &mut buf).unwrap();
    assert_eq!(kind, PacketType(ZCRCW));
    assert_eq!(len, 4);
    assert_eq!(buf, [1, 2, 3, 4]);
    assert_eq!(rx.crc_error_count(), 0);
}

#[test]
fn short_buffer_overflows_at_one_byte_more() {
    let mut line = Journal::new(&subpacket(&[1, 2, 3, 4, 5], ZCRCW));
    let mut rx = Receiver::new(&mut line);
    let mut buf = [0xeeu8; 4];
    assert!(matches!(
        rx.receive_data_packet(FrameEncoding(ZBIN), &mut buf),
        Err(Error::Overflow)
    ));
    assert_eq!(buf, [1, 2, 3, 4]);
    drop(rx);
    // The fifth payload byte was the last one read.
    assert_eq!(line.reads, 5);
}

#[test]
fn empty_buffer_takes_only_an_empty_subpacket() {
    let mut line = Journal::new(&subpacket(&[], ZCRCE));
    let mut rx = Receiver::new(&mut line);
    let mut buf = [0u8; 0];
    let (kind, len) = rx.receive_data_packet(FrameEncoding(ZBIN), &mut buf).unwrap();
    assert_eq!(kind, PacketType(ZCRCE));
    assert_eq!(len, 0);

    let mut line = Journal::new(&subpacket(&[9], ZCRCE));
    let mut rx = Receiver::new(&mut line);
    assert!(matches!(
        rx.receive_data_packet(FrameEncoding(ZBIN), &mut buf),
        Err(Error::Overflow)
    ));
}

#[test]
fn buffer_behind_the_payload_is_left_alone() {
    let mut line = Journal::new(&subpacket(&[7, 8, 9], ZCRCG));
    let mut rx = Receiver::new(&mut line);
    let mut buf = [0xeeu8; 2000];
    let (_, len) = rx.receive_data_packet(FrameEncoding(ZBIN), &mut buf).unwrap();
    assert_eq!(len, 3);
    assert_eq!(&buf[..3], &[7, 8, 9]);
    assert!(buf[3..].iter().all(|b| *b == 0xee));

    let mut line = Journal::new(&subpacket(&[], ZCRCW));
    let mut rx = Receiver::new(&mut line);
    let mut buf = [0x5au8; 64];
    let (_, len) = rx.receive_data_packet(FrameEncoding(ZHEX), &mut buf).unwrap();
    assert_eq!(len, 0);
    assert_eq!(buf, [0x5au8; 64]);
}

#[test]
fn buffer_after_an_invalid_escape_holds_what_was_decoded() {
    // Two plain bytes, one escaped byte, then an escape that means nothing.
    let wire = [1, 2, 0x18, 0x58, 0x18, 0x20, 3];
    let mut line = Journal::new(&wire);
    let mut rx = Receiver::new(&mut line);
    let mut buf = [0xeeu8; 8];
    assert!(matches!(
        rx.receive_data_packet(FrameEncoding(ZBIN), &mut buf),
        Err(Error::InvalidEscape(0x20))
    ));
    assert_eq!(buf, [1, 2, 0x18, 0xee, 0xee, 0xee, 0xee, 0xee]);

    let mut line = Journal::new(&wire);
    let mut rx = Receiver::new(&mut line);
    let mut buf = [0xeeu8; 8];
    assert!(matches!(rx.receive_data(&mut buf), Err(Error::InvalidEscape(0x20))));
    assert_eq!(buf, [1, 2, 0x18, 0xee, 0xee, 0xee, 0xee, 0xee]);
}

#[test]
fn buffer_after_a_line_failure_holds_what_was_decoded() {
    let mut line = Journal::new(&[4, 5, 6]);
    let mut rx = Receiver::new(&mut line);
    let mut buf = [0xeeu8; 6];
    assert!(matches!(
        rx.receive_data_packet(FrameEncoding(ZBIN), &mut buf),
        Err(Error::Device(Fault::Exhausted))
    ));
    assert_eq!(buf, [4, 5, 6, 0xee, 0xee, 0xee]);

    let mut line = Journal::new(&[4, 5, 6]);
    let mut rx = Receiver::new(&mut line);
    let mut buf = [0xeeu8; 6];
    assert!(matches!(rx.receive_data(&mut buf), Err(Error::Device(Fault::Exhausted))));
    assert_eq!(buf, [4, 5, 6, 0xee, 0xee, 0xee]);
}

#[test]
fn receive_data_into_nothing_reads_nothing() {
    let mut line = Journal::new(&[1, 2, 3]);
    let mut rx = Receiver::new(&mut line);
    let mut buf = [0u8; 0];
    assert!(matches!(rx.receive_data(&mut buf), Ok(None)));
    drop(rx);
    assert_eq!(line.reads, 0);
    assert_eq!(line.script.len(), 3);
}

// --------------------------------------------------------- failed sends

#[test]
fn failed_send_leaves_a_proper_prefix_of_the_frame() {
    let frame = reply(ZRINIT);
    for k in 0..frame.len() {
        let mut line = Journal::new(&[]);
        line.sends_left = k;
        let mut rx = Receiver::new(&mut line);
        assert!(matches!(rx.send_zrinit(), Err(Error::Device(Fault::Broken))));
        drop(rx);
        assert_eq!(line.sent(), &frame[..k]);
        assert_eq!(line.entries.last(), Some(&Entry::Refused));
    }
    let mut line = Journal::new(&[]);
    line.sends_left = frame.len();
    let mut rx = Receiver::new(&mut line);
    assert!(rx.send_zrinit().is_ok());
    drop(rx);
    assert_eq!(line.sent(), frame);
}

#[test]
fn failed_send_of_a_header_or_a_byte() {
    let header = FrameHeader::new(FrameEncoding(ZHEX), FrameType(ZFIN));
    let frame = reply(ZFIN);
    let mut line = Journal::new(&[]);
    line.sends_left = 7;
    let mut rx = Receiver::new(&mut line);
    assert!(matches!(rx.send_frame(header), Err(Error::Device(Fault::Broken))));
    drop(rx);
    assert_eq!(line.sent(), &frame[..7]);

    // A byte in hexadecimal is two digits: the first may go out alone.
    let mut line = Journal::new(&[]);
    line.sends_left = 1;
    let mut rx = Receiver::new(&mut line);
    assert!(matches!(rx.send_hex(0x8a), Err(Error::Device(Fault::Broken))));
    assert!(matches!(rx.send(0x8a, false), Err(Error::Device(Fault::Broken))));
    drop(rx);
    assert_eq!(line.sent(), vec![b'8']);
}

#[test]
fn session_whose_line_fails_has_sent_a_prefix_of_its_replies() {
    let mut wire = hex_header(ZRQINIT, &[0x0d, 0x8a, 0x11]);
    wire.extend(hex_header(ZFILE, &[0x0d, 0x8a, 0x11]));
    wire.extend(subpacket(&[], ZCRCW));
    let mut replies = reply(ZRINIT);
    replies.extend(reply(ZRINIT));
    replies.extend(reply(zmodem::consts::ZRPOS));
    for k in 0..replies.len() {
        let mut line = Journal::new(&wire);
        line.sends_left = k;
        let mut output = [0u8; 4];
        assert!(matches!(receive(&mut line, &mut output), Err(Error::Device(Fault::Broken))));
        assert_eq!(line.sent(), &replies[..k]);
        // Nothing is sent or read once a send has been refused.
        assert_eq!(line.entries.last(), Some(&Entry::Refused));
        assert_eq!(line.entries.iter().filter(|e| **e == Entry::Refused).count(), 1);
    }
}

// --------------------------------------------------------- failed reads

#[test]
fn failed_read_ends_a_frame_header() {
    let whole = hex_header(ZRQINIT, &[0x0d, 0x8a, 0x11]);
    for k in 0..whole.len() {
        let mut line = Journal::new(&whole[..k]);
        let mut rx = Receiver::with_read_limit(&mut line, 100);
        assert!(matches!(
            rx.receive_frame_header(Duration::from_secs(1)),
            Err(Error::Device(Fault::Exhausted))
        ));
        // The failed read used up a read as the others did.
        assert_eq!(rx.remaining_reads(), 100 - (k as u64 + 1));
        drop(rx);
        // The failure was the last call of the line, and the only one
        // that failed.
        assert_eq!(line.entries.len(), k + 1);
        assert_eq!(line.entries.last(), Some(&Entry::Broke));
        assert_eq!(line.reads, k + 1);
    }
}

#[test]
fn failed_read_ends_a_subpacket_and_a_session() {
    let mut line = Journal::new(&[1, 2, 3]);
    let mut rx = Receiver::new(&mut line);
    let mut buf = [0u8; 16];
    assert!(matches!(
        rx.receive_data_packet(FrameEncoding(ZBIN), &mut buf),
        Err(Error::Device(Fault::Exhausted))
    ));
    drop(rx);
    assert_eq!(line.entries.iter().filter(|e| **e == Entry::Broke).count(), 1);
    assert_eq!(line.entries.last(), Some(&Entry::Broke));

    let mut wire = hex_header(ZFILE, &[0x0d, 0x8a, 0x11]);
    wire.extend_from_slice(&[b'a', b'b']);
    let mut line = Journal::new(&wire);
    let mut output = [0u8; 4];
    assert!(matches!(receive(&mut line, &mut output), Err(Error::Device(Fault::Exhausted))));
    assert_eq!(line.entries.iter().filter(|e| **e == Entry::Broke).count(), 1);
    assert_eq!(line.entries.last(), Some(&Entry::Broke));
}

#[test]
fn reads_left_are_what_was_left_less_the_reads_made() {
    let mut wire = hex_header(ZFIN, &[0x0d, 0x8a]);
    wire.extend_from_slice(b"OO");
    let mut line = Journal::new(&wire);
    let mut rx = Receiver::with_read_limit(&mut line, 500);
    let mut output = [0u8; 4];
    assert!(matches!(rx.receive(&mut output), Ok(0)));
    assert_eq!(rx.remaining_reads(), 500 - wire.len() as u64);
}

#[test]
fn sessions_on_lines_that_fail_alike_end_alike() {
    let mut wire = hex_header(ZRQINIT, &[0x0d, 0x8a, 0x11]);
    wire.extend(hex_header(ZFILE, &[0x0d, 0x8a, 0x11]));
    wire.extend(subpacket(b"x\x00", ZCRCW));
    for k in [0usize, 5, 21, 22, 40, 43, 60] {
        let mut first = Journal::new(&wire);
        first.sends_left = k;
        let mut second = Journal::new(&wire);
        second.sends_left = k;
        let mut one = [3u8; 8];
        let mut other = [3u8; 8];
        let a = receive(&mut first, &mut one);
        let b = receive(&mut second, &mut other);
        assert_eq!(format!("{:?}", a), format!("{:?}", b));
        assert_eq!(first.entries, second.entries);
        assert_eq!(one, other);
    }
}

#[test]
fn receive_data_stops_at_the_byte_that_fills_the_buffer() {
    // The marker behind a full buffer is left for the caller.
    let mut line = Journal::new(&[1, 2, 3, 0x18, ZCRCW]);
    let mut rx = Receiver::new(&mut line);
    let mut buf = [0u8; 3];
    assert!(matches!(rx.receive_data(&mut buf), Ok(None)));
    drop(rx);
    assert_eq!(buf, [1, 2, 3]);
    assert_eq!(line.script.len(), 2);

    // A marker that comes before the buffer is full is read.
    let mut line = Journal::new(&[1, 2, 0x18, ZCRCW]);
    let mut rx = Receiver::new(&mut line);
    let mut buf = [0u8; 3];
    assert!(matches!(rx.receive_data(&mut buf), Ok(Some((ZCRCW, 2)))));
    drop(rx);
    assert!(line.script.is_empty());
}

// ------------------------------------------------ replies and reads in order

#[test]
fn zrinit_goes_out_before_the_first_read() {
    let mut line = Journal::new(&hex_header(ZRQINIT, &[0x0d, 0x8a, 0x11]));
    let mut output = [0u8; 4];
    assert!(matches!(receive(&mut line, &mut output), Err(Error::Device(Fault::Exhausted))));
    assert_eq!(line.sent_before_first_read(), reply(ZRINIT));
}

#[test]
fn zfin_goes_out_before_over_and_out_is_read() {
    let header = hex_header(ZFIN, &[0x0d, 0x8a]);
    let mut wire = header.clone();
    wire.extend_from_slice(b"OO");
    let mut line = Journal::new(&wire);
    let mut output = [0u8; 4];
    assert!(matches!(receive(&mut line, &mut output), Ok(0)));
    let mut expected: Vec<Entry> = reply(ZRINIT).into_iter().map(Entry::Sent).collect();
    expected.extend(header.iter().map(|b| Entry::Read(Some(*b))));
    expected.extend(reply(ZFIN).into_iter().map(Entry::Sent));
    expected.push(Entry::Read(Some(b'O')));
    expected.push(Entry::Read(Some(b'O')));
    assert_eq!(line.entries, expected);
}

#[test]
fn zrpos_goes_out_behind_the_metadata_and_before_the_next_header() {
    let first = hex_header(ZFILE, &[0x0d, 0x8a, 0x11]);
    let meta = subpacket(b"a\x00", ZCRCW);
    let second = hex_header(ZFIN, &[0x0d, 0x8a]);
    let mut wire = first.clone();
    wire.extend(meta.clone());
    wire.extend(second.clone());
    wire.extend_from_slice(b"OO");
    let mut line = Journal::new(&wire);
    let mut output = [0u8; 4];
    // ZFIN is not taken while a file is under way.
    assert!(matches!(receive(&mut line, &mut output), Err(Error::UnexpectedFrame(_))));
    let mut expected: Vec<Entry> = reply(ZRINIT).into_iter().map(Entry::Sent).collect();
    expected.extend(first.iter().map(|b| Entry::Read(Some(*b))));
    expected.extend(meta.iter().map(|b| Entry::Read(Some(*b))));
    expected.extend(reply(zmodem::consts::ZRPOS).into_iter().map(Entry::Sent));
    expected.extend(second.iter().map(|b| Entry::Read(Some(*b))));
    assert_eq!(line.entries, expected);
}

#[test]
fn sender_reads_an_answer_only_behind_its_packet() {
    let data = [0x33u8; 128];
    let mut line = Journal::new(&[b'C', 0x15, 0x06, 0x06]);
    let mut tx = Sender::new(&mut line);
    tx.send(&data, |_, _| {}).unwrap();
    drop(tx);
    let mut packet = Packet::zeroed();
    packet.fill(1, &data);
    let bytes = packet.to_bytes();
    let mut expected = vec![Entry::Read(Some(b'C'))];
    expected.extend(bytes.iter().map(|b| Entry::Sent(*b)));
    expected.push(Entry::Read(Some(0x15)));
    expected.extend(bytes.iter().map(|b| Entry::Sent(*b)));
    expected.push(Entry::Read(Some(0x06)));
    expected.push(Entry::Sent(0x04));
    expected.push(Entry::Read(Some(0x06)));
    assert_eq!(line.entries, expected);
}

// --------------------------------------------------------------- line ends

#[test]
fn good_line_ends_are_not_counted() {
    let mut wire = hex_header(ZRQINIT, &[0x0d, 0x8a, 0x11]);
    wire.extend(hex_header(ZRQINIT, &[0x0d, 0x0a, 0x11]));
    wire.extend(hex_header(ZFIN, &[0x0d, 0x8a]));
    let mut line = Journal::new(&wire);
    let mut rx = Receiver::new(&mut line);
    for _ in 0..3 {
        rx.receive_frame_header(Duration::from_secs(1)).unwrap();
    }
    assert_eq!(rx.line_end_error_count(), 0);
    assert_eq!(rx.crc_error_count(), 0);
}

#[test]
fn each_wrong_byte_of_a_line_end_is_counted() {
    let mut wire = hex_header(ZRQINIT, &[0x0a, 0x8a, 0x11]);
    wire.extend(hex_header(ZRQINIT, &[0x0d, 0x0d, 0x13]));
    wire.extend(hex_header(ZFIN, &[b'O', b'O']));
    let mut line = Journal::new(&wire);
    let mut rx = Receiver::new(&mut line);
    let t = Duration::from_secs(1);
    assert_eq!(rx.receive_frame_header(t).unwrap().frame_type, FrameType(ZRQINIT));
    assert_eq!(rx.line_end_error_count(), 1);
    assert_eq!(rx.receive_frame_header(t).unwrap().frame_type, FrameType(ZRQINIT));
    assert_eq!(rx.line_end_error_count(), 3);
    assert_eq!(rx.receive_frame_header(t).unwrap().frame_type, FrameType(ZFIN));
    assert_eq!(rx.line_end_error_count(), 5);
    assert_eq!(rx.crc_error_count(), 0);
}

#[test]
fn line_end_cut_short_counts_what_came() {
    let wire = hex_header(ZRQINIT, &[0x00]);
    let mut line = Journal::new(&wire);
    let mut rx = Receiver::new(&mut line);
    assert!(matches!(
        rx.receive_frame_header(Duration::from_secs(1)),
        Err(Error::Device(Fault::Exhausted))
    ));
    assert_eq!(rx.line_end_error_count(), 1);
}

#[test]
fn binary_headers_have_no_line_end() {
    let body = [ZRQINIT, 0, 0, 0, 0];
    let crc = crc16_of(&body).to_be_bytes();
    let mut wire = vec![0x2a, 0x18, b'A'];
    wire.extend_from_slice(&body);
    wire.extend_from_slice(&crc);
    let mut line = Journal::new(&wire);
    let mut rx = Receiver::new(&mut line);
    rx.receive_frame_header(Duration::from_secs(1)).unwrap();
    assert_eq!(rx.line_end_error_count(), 0);
    drop(rx);
    assert!(line.script.is_empty());
}

#[test]
fn line_ends_are_counted_through_a_session() {
    // ZRQINIT with a wrong carriage return, ZFILE with a good line end,
    // empty metadata, ZEOF with a wrong XON, ZFIN with two wrong bytes.
    let mut wire = hex_header(ZRQINIT, &[0x0a, 0x8a, 0x11]);
    wire.extend(hex_header(ZFILE, &[0x0d, 0x0a, 0x11]));
    wire.extend(subpacket(&[], ZCRCW));
    wire.extend(hex_header(zmodem::consts::ZEOF, &[0x0d, 0x8a, 0x00]));
    wire.extend(hex_header(ZFIN, &[0x00, 0x00]));
    wire.extend_from_slice(b"OO");
    let mut line = Journal::new(&wire);
    let mut rx = Receiver::new(&mut line);
    let mut output = [0u8; 8];
    assert!(matches!(rx.receive(&mut output), Ok(0)));
    assert_eq!(rx.line_end_error_count(), 4);
    assert_eq!(rx.crc_error_count(), 0);
}

#[test]
fn failed_frame_check_is_counted_before_the_line_end_has_come() {
    // A header whose frame check is wrong, and of its line end only the
    // carriage return: then the line fails.
    let mut wire = hex_header(ZRQINIT, &[0x0d]);
    let at = wire.len() - 2;
    wire[at] = if wire[at] == b'0' { b'1' } else { b'0' };
    let mut line = Journal::new(&wire);
    let mut rx = Receiver::new(&mut line);
    let mut output = [0u8; 8];
    assert!(matches!(rx.receive(&mut output), Err(Error::Device(Fault::Exhausted))));
    assert_eq!(rx.crc_error_count(), 1);
    assert_eq!(rx.line_end_error_count(), 0);
    drop(rx);
    assert_eq!(line.sent(), reply(ZRINIT));
}

// ------------------------------------------------------------ XMODEM packet

#[test]
fn packet_from_its_tail_starts_with_soh() {
    let mut tail = [0u8; 132];
    tail[0] = 5;
    tail[1] = !5;
    for (i, b) in tail[2..130].iter_mut().enumerate() {
        *b = i as u8;
    }
    let crc = crc16_of(&tail[2..130]).to_be_bytes();
    tail[130] = crc[0];
    tail[131] = crc[1];
    let packet = Packet::from_tail(&tail);
    let bytes = packet.to_bytes();
    assert_eq!(bytes[0], 0x01);
    assert_eq!(&bytes[1..], &tail[..]);
    assert_eq!(packet.number(), 5);
    assert!(packet.is_intact());
}
