use std::collections::VecDeque;

use zmodem::device::SerialDevice;
use zmodem::sender::{progress_due, read_answer, Answer, Sender};
use zmodem::time::Duration;
use zmodem::xmodem::{id_follows, receive, Error, Packet, Receiver};

const SOH: u8 = 0x01;
const EOT: u8 = 0x04;
const ACK: u8 = 0x06;
const NAK: u8 = 0x15;
const ETB: u8 = 0x17;
const CAN: u8 = 0x18;

#[derive(Debug, PartialEq)]
enum Fault {
    Exhausted,
    Broken,
}

#[derive(Clone, Copy)]
enum Step {
    Byte(u8),
    Silence,
    Fail,
}

/// A serial line that plays back a script and records what is sent. The
/// first `pending` bytes of the script are on the line already; the rest
/// arrive only for a read that waits.
struct Line {
    script: VecDeque<Step>,
    pending: usize,
    sent: Vec<u8>,
    waits: Vec<(u64, u32)>,
    /// How many bytes had been sent when each byte was read.
    sent_at_read: Vec<usize>,
}

impl Line {
    fn new(bytes: &[u8]) -> Line {
        Line::steps(bytes.iter().map(|b| Step::Byte(*b)).collect())
    }

    fn steps(steps: Vec<Step>) -> Line {
        Line {
            script: steps.into(),
            pending: 0,
            sent: Vec::new(),
            waits: Vec::new(),
            sent_at_read: Vec::new(),
        }
    }
}

impl SerialDevice for &mut Line {
    type Error = Fault;

    fn send(&mut self, byte: u8) -> Result<(), Fault> {
        self.sent.push(byte);
        Ok(())
    }

    fn recv(&mut self, timeout: Duration) -> Result<Option<u8>, Fault> {
        if timeout == Duration::zero() {
            if self.pending == 0 {
                return Ok(None);
            }
            self.pending -= 1;
        }
        self.waits.push((timeout.as_secs(), timeout.subsec()));
        self.sent_at_read.push(self.sent.len());
        match self.script.pop_front() {
            Some(Step::Byte(b)) => Ok(Some(b)),
            Some(Step::Silence) => Ok(None),
            Some(Step::Fail) => Err(Fault::Broken),
            None => Err(Fault::Exhausted),
        }
    }
}

fn crc16_of(bytes: &[u8]) -> u16 {
    crc::Crc::<u16>::new(&crc::CRC_16_XMODEM).checksum(bytes)
}

fn block(seed: u8) -> [u8; 128] {
    let mut data = [0u8; 128];
    for (i, b) in data.iter_mut().enumerate() {
        *b = seed.wrapping_add((i as u8).wrapping_mul(3));
    }
    data
}

fn packet(id: u8, data: &[u8; 128]) -> Vec<u8> {
    let mut out = vec![SOH, id, !id];
    out.extend_from_slice(data);
    out.extend_from_slice(&crc16_of(data).to_be_bytes());
    out
}

// ------------------------------------------------------------- packets

#[test]
fn filled_packet_is_bit_exact_and_intact() {
    let data = block(9);
    let mut p = Packet::zeroed();
    assert_eq!(p.to_bytes(), [0u8; 133]);
    p.fill(1, &data);
    assert_eq!(p.to_bytes().to_vec(), packet(1, &data));
    assert_eq!(p.to_bytes()[1], 0x01);
    assert_eq!(p.to_bytes()[2], 0xfe);
    assert!(p.is_intact());
    assert_eq!(p.number(), 1);
    assert_eq!(p.payload(), &data);
}

#[test]
fn short_chunk_keeps_the_old_rest() {
    let mut p = Packet::zeroed();
    p.fill(1, &block(1));
    p.fill(2, &[0xaa; 5]);
    let mut expected = block(1);
    expected[..5].copy_from_slice(&[0xaa; 5]);
    assert_eq!(p.payload(), &expected);
    assert_eq!(p.to_bytes().to_vec(), packet(2, &expected));
    assert!(p.is_intact());
}

#[test]
fn damaged_packets_are_not_intact() {
    let data = block(4);
    let good = packet(7, &data);
    let tail: [u8; 132] = good[1..].try_into().unwrap();
    assert!(Packet::from_tail(&tail).is_intact());
    for i in 0..132 {
        let mut bad = tail;
        bad[i] ^= 0x10;
        assert!(!Packet::from_tail(&bad).is_intact(), "byte {}", i);
    }
}

#[test]
fn zeroed_packet_is_not_intact() {
    // Number 0 wants 0xff as its complement.
    assert!(!Packet::zeroed().is_intact());
}

#[test]
fn packet_numbers_follow_with_wrap_around() {
    assert!(id_follows(None, 0));
    assert!(id_follows(None, 1));
    assert!(id_follows(None, 200));
    assert!(id_follows(Some(1), 2));
    assert!(id_follows(Some(255), 0));
    assert!(!id_follows(Some(1), 1));
    assert!(!id_follows(Some(1), 3));
    assert!(!id_follows(Some(2), 1));
    assert!(!id_follows(Some(255), 1));
    assert!(!id_follows(Some(0), 255));
}

// ------------------------------------------------------------ receiver

#[test]
fn one_block_transfer() {
    let data = block(0x30);
    let mut wire = packet(1, &data);
    wire.extend_from_slice(&[EOT, ETB]);
    let mut line = Line::new(&wire);
    let mut output = [0u8; 256];
    let mut rx = Receiver::new(&mut line);
    rx.receive(&mut output).unwrap();
    assert_eq!(rx.bytes_written(), 128);
    drop(rx);
    assert_eq!(&output[..128], &data);
    assert!(output[128..].iter().all(|b| *b == 0));
    // C to start, ACK for EOT, ACK for ETB.
    assert_eq!(line.sent, vec![b'C', ACK, ACK]);
    // The C went out before anything was read, each ACK behind its cue.
    assert_eq!(line.sent_at_read[0], 1);
    assert_eq!(line.sent_at_read[133], 1);
    assert_eq!(line.sent_at_read[134], 2);
    assert!(line.script.is_empty());
    // Half a second for the start of a packet, no limit inside one.
    assert_eq!(line.waits[0], (0, 500_000_000));
    assert_eq!(line.waits[1], (u64::MAX, 999_999_999));
    assert_eq!(line.waits[133], (0, 500_000_000));
    assert_eq!(line.waits[134], (u64::MAX, 999_999_999));
}

#[test]
fn acknowledging_receiver_answers_every_block() {
    let mut wire = packet(1, &block(1));
    wire.extend(packet(2, &block(2)));
    wire.extend_from_slice(&[EOT, ETB]);
    let mut line = Line::new(&wire);
    let mut output = [0u8; 256];
    let mut rx = Receiver::new(&mut line).acknowledging(true);
    rx.receive(&mut output).unwrap();
    drop(rx);
    assert_eq!(&output[..128], &block(1));
    assert_eq!(&output[128..], &block(2));
    assert_eq!(line.sent, vec![b'C', ACK, ACK, ACK, ACK]);
    // Each block's ACK was out before the next packet was read.
    assert_eq!(line.sent_at_read[133], 2);
    assert_eq!(line.sent_at_read[266], 3);
}

#[test]
fn bad_crc_is_answered_with_nak_and_tried_again() {
    let data = block(0x41);
    let mut damaged = packet(1, &data);
    damaged[132] ^= 0xff;
    let mut wire = damaged;
    wire.extend(packet(1, &data));
    wire.extend_from_slice(&[EOT, ETB]);
    let mut line = Line::new(&wire);
    let mut output = [0u8; 128];
    assert!(matches!(receive(&mut line, &mut output), Ok(128)));
    assert_eq!(output, data);
    assert_eq!(line.sent, vec![b'C', NAK, ACK, ACK]);
    // The NAK was out before the first byte of the second try was read.
    assert_eq!(line.sent_at_read[133], 2);
}

#[test]
fn bad_complement_is_answered_with_nak() {
    let data = block(2);
    let mut damaged = packet(1, &data);
    damaged[2] = 0x00;
    let mut wire = damaged;
    wire.extend_from_slice(&[EOT, ETB]);
    let mut line = Line::new(&wire);
    let mut output = [0u8; 128];
    assert!(matches!(receive(&mut line, &mut output), Ok(0)));
    assert_eq!(output, [0u8; 128]);
    assert_eq!(line.sent, vec![b'C', NAK, ACK, ACK]);
}

#[test]
fn blocks_are_written_one_behind_the_other() {
    let mut wire = Vec::new();
    let mut expected = Vec::new();
    let mut id = 254u8;
    for seed in 0..5u8 {
        wire.extend(packet(id, &block(seed)));
        expected.extend_from_slice(&block(seed));
        id = id.wrapping_add(1);
    }
    wire.extend_from_slice(&[EOT, ETB]);
    let mut line = Line::new(&wire);
    let mut output = vec![0x5au8; 5 * 128 + 3];
    assert!(matches!(receive(&mut line, &mut output), Ok(640)));
    assert_eq!(&output[..640], &expected[..]);
    assert_eq!(&output[640..], &[0x5a; 3]);
    assert_eq!(line.sent, vec![b'C', ACK, ACK]);
}

#[test]
fn packet_out_of_order_is_bad_id() {
    for second in [1u8, 3, 0] {
        let mut wire = packet(1, &block(1));
        wire.extend(packet(second, &block(2)));
        let mut line = Line::new(&wire);
        let mut output = [0u8; 512];
        assert!(matches!(receive(&mut line, &mut output), Err(Error::BadPacketId)));
        assert_eq!(line.sent, vec![b'C']);
    }
}

#[test]
fn unknown_start_byte_is_bad_type() {
    let mut line = Line::new(&[0x02, 1, 2]);
    let mut output = [0u8; 128];
    assert!(matches!(receive(&mut line, &mut output), Err(Error::BadPacketType(0x02))));
    let mut line = Line::new(&[EOT, EOT]);
    assert!(matches!(receive(&mut line, &mut output), Err(Error::BadPacketType(EOT))));
    assert_eq!(line.sent, vec![b'C', ACK]);
}

#[test]
fn block_without_room_overflows() {
    let mut wire = packet(1, &block(1));
    wire.extend(packet(2, &block(2)));
    let mut line = Line::new(&wire);
    let mut output = [0u8; 200];
    assert!(matches!(receive(&mut line, &mut output), Err(Error::Overflow)));
    assert_eq!(&output[..128], &block(1));
    assert!(output[128..].iter().all(|b| *b == 0));
}

#[test]
fn silent_line_is_no_response() {
    let mut line = Line::steps(vec![Step::Silence]);
    let mut output = [0u8; 128];
    let mut rx = Receiver::new(&mut line);
    assert!(matches!(rx.receive(&mut output), Err(Error::NoResponse)));
    drop(rx);
    assert_eq!(line.sent, vec![b'C']);
}

#[test]
fn no_response_is_tried_again() {
    // Pending junk is dropped first; then two silent tries, then a sender.
    let mut steps = vec![Step::Byte(0x77), Step::Byte(0x78), Step::Silence, Step::Silence];
    steps.extend(packet(1, &block(8)).iter().map(|b| Step::Byte(*b)));
    steps.extend([Step::Byte(EOT), Step::Byte(ETB)]);
    let mut line = Line::steps(steps);
    line.pending = 2;
    let mut output = [0u8; 128];
    assert!(matches!(receive(&mut line, &mut output), Ok(128)));
    assert_eq!(output, block(8));
    assert_eq!(line.sent, vec![b'C', b'C', b'C', ACK, ACK]);
    // The two reads that dropped the junk did not wait.
    assert_eq!(line.waits[..2], [(0, 0); 2]);
    assert_eq!(line.waits[2], (0, 500_000_000));
}

#[test]
fn silence_inside_a_packet_is_timed_out() {
    let mut steps: Vec<Step> = packet(1, &block(8))[..50].iter().map(|b| Step::Byte(*b)).collect();
    steps.push(Step::Silence);
    let mut line = Line::steps(steps);
    let mut output = [0u8; 128];
    assert!(matches!(receive(&mut line, &mut output), Err(Error::TimedOut)));
}

#[test]
fn line_failure_is_a_device_error() {
    let mut line = Line::steps(vec![Step::Byte(SOH), Step::Fail]);
    let mut output = [0u8; 128];
    let mut rx = Receiver::new(&mut line);
    assert!(matches!(rx.receive(&mut output), Err(Error::Device(Fault::Broken))));
}

#[test]
fn receiver_out_of_reads_gives_up() {
    let mut line = Line::steps(vec![Step::Silence; 8]);
    let mut output = [0u8; 128];
    let mut rx = Receiver::with_read_limit(&mut line, 2);
    assert!(matches!(rx.receive(&mut output), Err(Error::NoResponse)));
    assert!(matches!(rx.receive(&mut output), Err(Error::NoResponse)));
    assert_eq!(rx.remaining_reads(), 0);
    assert!(matches!(rx.receive(&mut output), Err(Error::NoResponse)));
    drop(rx);
    assert_eq!(line.script.len(), 6);
    assert_eq!(line.sent, vec![b'C', b'C', b'C']);
}

// ------------------------------------------------------------ transfers

#[test]
fn transfer_drops_junk_and_tries_again() {
    let mut steps = vec![Step::Byte(0x77), Step::Byte(0x78), Step::Silence, Step::Silence];
    steps.extend(packet(1, &block(8)).iter().map(|b| Step::Byte(*b)));
    steps.extend([Step::Byte(EOT), Step::Byte(ETB)]);
    let reads = steps.len() as u64;
    let mut line = Line::steps(steps);
    line.pending = 2;
    let mut output = [0u8; 128];
    let mut rx = Receiver::with_read_limit(&mut line, 1000);
    assert!(matches!(rx.transfer(&mut output), Ok(128)));
    assert_eq!(rx.bytes_written(), 128);
    // Two reads for the junk, one that found the line empty, and one for
    // every step behind the junk.
    assert_eq!(rx.remaining_reads(), 1000 - (reads + 1));
    drop(rx);
    assert_eq!(output, block(8));
    assert_eq!(line.sent, vec![b'C', b'C', b'C', ACK, ACK]);
    // Each request was out before the read that waited for its answer.
    assert_eq!(line.sent_at_read[..5], [0, 0, 1, 2, 3]);
}

#[test]
fn transfer_without_reads_does_nothing() {
    let mut line = Line::steps(vec![Step::Byte(SOH)]);
    let mut output = [9u8; 128];
    let mut rx = Receiver::with_read_limit(&mut line, 0);
    assert!(matches!(rx.transfer(&mut output), Err(Error::NoResponse)));
    drop(rx);
    assert!(line.sent.is_empty());
    assert!(line.waits.is_empty());
    assert_eq!(line.script.len(), 1);
    assert_eq!(output, [9u8; 128]);
}

#[test]
fn transfer_gives_up_only_when_no_read_is_left() {
    // One read finds the line empty; each of the four that are left
    // waits for a packet to start.
    let mut line = Line::steps(vec![Step::Silence; 10]);
    let mut output = [0u8; 128];
    let mut rx = Receiver::with_read_limit(&mut line, 5);
    assert!(matches!(rx.transfer(&mut output), Err(Error::NoResponse)));
    assert_eq!(rx.remaining_reads(), 0);
    drop(rx);
    // The request for a fifth stream was not sent.
    assert_eq!(line.sent, vec![b'C'; 4]);
    assert_eq!(line.waits, vec![(0, 500_000_000); 4]);
    assert_eq!(line.sent_at_read, vec![1, 2, 3, 4]);
    assert_eq!(line.script.len(), 6);
}

#[test]
fn transfer_whose_flush_uses_the_last_read_sends_nothing() {
    let mut line = Line::steps(vec![Step::Byte(1), Step::Byte(2)]);
    line.pending = 2;
    let mut output = [0u8; 128];
    let mut rx = Receiver::with_read_limit(&mut line, 2);
    assert!(matches!(rx.transfer(&mut output), Err(Error::NoResponse)));
    drop(rx);
    assert!(line.sent.is_empty());
    assert!(line.script.is_empty());
}

#[test]
fn transfer_keeps_the_blocks_of_a_stream_that_fell_silent() {
    let mut steps: Vec<Step> = vec![Step::Silence];
    steps.extend(packet(1, &block(1)).iter().map(|b| Step::Byte(*b)));
    steps.push(Step::Silence);
    steps.extend(packet(1, &block(2)).iter().map(|b| Step::Byte(*b)));
    steps.extend([Step::Byte(EOT), Step::Byte(ETB)]);
    let mut line = Line::steps(steps);
    let mut output = [0u8; 256];
    let mut rx = Receiver::new(&mut line);
    assert!(matches!(rx.transfer(&mut output), Ok(256)));
    drop(rx);
    assert_eq!(&output[..128], &block(1));
    assert_eq!(&output[128..], &block(2));
    assert_eq!(line.sent, vec![b'C', b'C', b'C', ACK, ACK]);
}

#[test]
fn transfer_hands_back_the_error_of_the_line() {
    let mut line = Line::steps(vec![Step::Silence, Step::Byte(SOH), Step::Fail, Step::Byte(1)]);
    let mut output = [0u8; 128];
    let mut rx = Receiver::new(&mut line);
    assert!(matches!(rx.transfer(&mut output), Err(Error::Device(Fault::Broken))));
    drop(rx);
    // Nothing was read behind the failure.
    assert_eq!(line.script.len(), 1);
    assert_eq!(line.sent, vec![b'C', b'C']);
}

// -------------------------------------------------------------- sender

#[test]
fn answers_are_told_apart() {
    assert_eq!(read_answer(ACK), Answer::Next);
    assert_eq!(read_answer(NAK), Answer::Again);
    assert_eq!(read_answer(CAN), Answer::Canceled);
    assert_eq!(read_answer(b'C'), Answer::Unknown(b'C'));
    assert_eq!(read_answer(0), Answer::Unknown(0));
}

#[test]
fn sender_sends_numbered_blocks_and_eot() {
    let data: Vec<u8> = (0..300u32).map(|i| (i % 256) as u8).collect();
    let mut line = Line::new(&[b'C', ACK, ACK, ACK, ACK]);
    let mut tx = Sender::new(&mut line);
    tx.send(&data, |_, _| {}).unwrap();
    drop(tx);
    let mut first = [0u8; 128];
    first.copy_from_slice(&data[..128]);
    let mut second = [0u8; 128];
    second.copy_from_slice(&data[128..256]);
    // The short last block keeps the rest of the block before it.
    let mut third = second;
    third[..44].copy_from_slice(&data[256..]);
    let mut expected = packet(1, &first);
    expected.extend(packet(2, &second));
    expected.extend(packet(3, &third));
    expected.push(EOT);
    assert_eq!(line.sent, expected);
    assert!(line.script.is_empty());
    assert!(line.waits.iter().all(|w| *w == (u64::MAX, 999_999_999)));
}

#[test]
fn sender_repeats_a_block_after_nak() {
    let data = block(3);
    let mut line = Line::new(&[b'C', NAK, NAK, ACK, ACK]);
    let mut tx = Sender::new(&mut line);
    tx.send(&data, |_, _| {}).unwrap();
    drop(tx);
    let mut expected = Vec::new();
    for _ in 0..3 {
        expected.extend(packet(1, &data));
    }
    expected.push(EOT);
    assert_eq!(line.sent, expected);
}

#[test]
fn sender_of_nothing_sends_only_eot() {
    let mut line = Line::new(&[b'C', ACK]);
    let mut tx = Sender::new(&mut line);
    tx.send(&[], |_, _| {}).unwrap();
    drop(tx);
    assert_eq!(line.sent, vec![EOT]);
}

#[test]
fn sender_errors() {
    let data = block(3);
    let mut line = Line::new(&[NAK]);
    let mut tx = Sender::new(&mut line);
    assert!(matches!(tx.send(&data, |_, _| {}), Err(zmodem::sender::Error::BadPacketType(NAK))));
    drop(tx);
    assert!(line.sent.is_empty());

    let mut line = Line::new(&[b'C', CAN]);
    let mut tx = Sender::new(&mut line);
    assert!(matches!(tx.send(&data, |_, _| {}), Err(zmodem::sender::Error::Canceled)));

    let mut line = Line::new(&[b'C', 0x55]);
    let mut tx = Sender::new(&mut line);
    assert!(matches!(tx.send(&data, |_, _| {}), Err(zmodem::sender::Error::BadPacketType(0x55))));

    let mut line = Line::new(&[b'C', ACK, NAK]);
    let mut tx = Sender::new(&mut line);
    assert!(matches!(tx.send(&data, |_, _| {}), Err(zmodem::sender::Error::BadPacketType(NAK))));

    let mut line = Line::steps(vec![Step::Byte(b'C'), Step::Silence]);
    let mut tx = Sender::new(&mut line);
    assert!(matches!(tx.send(&data, |_, _| {}), Err(zmodem::sender::Error::TimedOut)));

    let mut line = Line::steps(vec![Step::Byte(b'C'), Step::Fail]);
    let mut tx = Sender::new(&mut line);
    assert!(matches!(tx.send(&data, |_, _| {}), Err(zmodem::sender::Error::Serial(Fault::Broken))));
}

#[test]
fn sender_out_of_reads_stops_repeating() {
    let data = block(3);
    let mut line = Line::new(&[b'C', NAK, NAK, NAK, NAK, NAK]);
    let mut tx = Sender::with_read_limit(&mut line, 3);
    assert!(matches!(tx.send(&data, |_, _| {}), Err(zmodem::sender::Error::TimedOut)));
    drop(tx);
    assert_eq!(line.sent.len(), 3 * 133);
    assert_eq!(line.script.len(), 3);
}

#[test]
fn what_the_sender_sends_the_receiver_takes() {
    let data: Vec<u8> = (0..1000u32).map(|i| (i * 13 % 256) as u8).collect();
    let mut answers = vec![b'C'];
    answers.extend_from_slice(&[ACK; 9]);
    let mut out = Line::new(&answers);
    let mut tx = Sender::new(&mut out);
    tx.send(&data, |_, _| {}).unwrap();
    drop(tx);
    let mut wire = out.sent.clone();
    wire.push(ETB);
    let mut back = Line::new(&wire);
    let mut output = vec![0u8; 1024];
    let mut rx = Receiver::new(&mut back).acknowledging(true);
    rx.receive(&mut output).unwrap();
    assert_eq!(rx.bytes_written(), 1024);
    drop(rx);
    assert_eq!(&output[..1000], &data[..]);
    // One answer for each byte the sender waited for, and one for the ETB.
    let mut expected = answers.clone();
    expected.push(ACK);
    assert_eq!(back.sent, expected);
}

#[test]
fn progress_is_told_behind_every_tenth_block_and_the_short_last() {
    let data = vec![7u8; 300];
    let mut line = Line::new(&[b'C', ACK, NAK, ACK, ACK, ACK]);
    let mut told: Vec<(usize, usize, usize)> = Vec::new();
    let mut tx = Sender::new(&mut line);
    let mut calls = 0;
    tx.send(&data, |done, total| {
        calls += 1;
        told.push((calls, done, total));
    })
    .unwrap();
    drop(tx);
    assert_eq!(told, vec![(1, 0, 300), (2, 256, 300)]);

    // Twenty-five full blocks: the block at 3200 / 128 does not exist.
    let data = vec![1u8; 3200];
    let mut answers = vec![b'C'];
    answers.extend(vec![ACK; 26]);
    let mut line = Line::new(&answers);
    let mut told: Vec<(usize, usize)> = Vec::new();
    let mut tx = Sender::new(&mut line);
    tx.send(&data, |done, total| told.push((done, total))).unwrap();
    drop(tx);
    assert_eq!(told, vec![(0, 3200), (1280, 3200), (2560, 3200)]);
}

#[test]
fn progress_is_not_told_of_a_block_that_was_not_acknowledged() {
    let data = vec![7u8; 128];
    let mut line = Line::new(&[b'C', CAN]);
    let mut told: Vec<(usize, usize)> = Vec::new();
    let mut tx = Sender::new(&mut line);
    assert!(matches!(
        tx.send(&data, |done, total| told.push((done, total))),
        Err(zmodem::sender::Error::Canceled)
    ));
    drop(tx);
    assert!(told.is_empty());
}

#[test]
fn progress_is_due_as_the_rule_says() {
    assert!(progress_due(0, 0));
    assert!(progress_due(0, 5000));
    assert!(!progress_due(1, 5000));
    assert!(progress_due(10, 5000));
    assert!(progress_due(39, 5000));
    assert!(!progress_due(38, 5000));
    assert!(progress_due(20, 128 * 25));
    assert!(!progress_due(24, 128 * 25));
}
