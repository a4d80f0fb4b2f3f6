use zmodem::consts::{ZCRCE, ZCRCG, ZCRCQ, ZCRCW, ZDATA, ZEOF, ZFILE, ZFIN, ZHEX, ZBIN32, ZRINIT, ZRQINIT};
use zmodem::device::Error;
use zmodem::proto::{FrameEncoding, FrameHeader, FrameType, PacketType};
use zmodem::session::{Phase, Session};

fn header(kind: u8) -> FrameHeader {
    FrameHeader::new(FrameEncoding(ZBIN32), FrameType(kind))
}

fn streaming() -> Session {
    let mut s = Session::new();
    s.on_header::<()>(header(ZFILE)).unwrap();
    s.on_packet::<()>(PacketType(ZCRCW), 17, 100).unwrap();
    s
}

#[test]
fn new_session_is_idle() {
    let s = Session::new();
    assert_eq!(s.current(), Phase::Idle);
    assert_eq!(s.bytes_taken(), 0);
    assert!(!s.has_started());
    assert!(!s.is_finishing());
}

#[test]
fn idle_takes_zrqinit_zfile_zfin() {
    let mut s = Session::new();
    s.on_header::<()>(header(ZRQINIT)).unwrap();
    assert_eq!(s.current(), Phase::Idle);
    assert!(!s.has_started());
    s.on_header::<()>(FrameHeader::new(FrameEncoding(ZHEX), FrameType(ZFILE))).unwrap();
    assert_eq!(s.current(), Phase::AwaitMeta { encoding: FrameEncoding(ZHEX) });
    assert!(s.has_started());

    let mut s = Session::new();
    s.on_header::<()>(header(ZFIN)).unwrap();
    assert!(s.is_finishing());
    assert_eq!(s.current(), Phase::Finishing);
}

#[test]
fn idle_rejects_other_headers() {
    for kind in [ZRINIT, ZDATA, ZEOF, 0x13, 0xff] {
        let mut s = Session::new();
        match s.on_header::<()>(header(kind).set_flags(0x0102_0304)) {
            Err(Error::UnexpectedFrame(h)) => {
                assert_eq!(h.frame_type, FrameType(kind));
                assert_eq!(h.data, [1, 2, 3, 4]);
            }
            other => panic!("{:?}", other),
        }
        assert_eq!(s.current(), Phase::Idle);
    }
}

#[test]
fn metadata_wants_zcrcw() {
    let s = streaming();
    assert_eq!(s.current(), Phase::Streaming);
    // Metadata is not file data.
    assert_eq!(s.bytes_taken(), 0);
    for marker in [ZCRCE, ZCRCG, ZCRCQ, 0x00] {
        let mut s = Session::new();
        s.on_header::<()>(header(ZFILE)).unwrap();
        assert!(matches!(s.on_packet::<()>(PacketType(marker), 0, 100), Err(Error::InvalidEscape(m)) if m == marker));
        assert_eq!(s.current(), Phase::AwaitMeta { encoding: FrameEncoding(ZBIN32) });
    }
}

#[test]
fn streaming_takes_zdata_and_zeof() {
    let mut s = streaming();
    s.on_header::<()>(header(ZDATA)).unwrap();
    assert_eq!(s.current(), Phase::Data { encoding: FrameEncoding(ZBIN32) });
    let mut s = streaming();
    s.on_header::<()>(header(ZEOF)).unwrap();
    assert_eq!(s.current(), Phase::Idle);
    assert!(s.has_started());
    for kind in [ZRQINIT, ZFILE, ZFIN, ZRINIT] {
        let mut s = streaming();
        assert!(matches!(s.on_header::<()>(header(kind)), Err(Error::UnexpectedFrame(_))));
        assert_eq!(s.current(), Phase::Streaming);
    }
}

#[test]
fn data_subpackets_move_the_offset_forward() {
    let mut s = streaming();
    s.on_header::<()>(header(ZDATA)).unwrap();
    s.on_packet::<()>(PacketType(ZCRCG), 40, 100).unwrap();
    assert_eq!(s.bytes_taken(), 40);
    assert_eq!(s.current(), Phase::Data { encoding: FrameEncoding(ZBIN32) });
    s.on_packet::<()>(PacketType(ZCRCG), 0, 100).unwrap();
    assert_eq!(s.bytes_taken(), 40);
    s.on_packet::<()>(PacketType(ZCRCE), 60, 100).unwrap();
    assert_eq!(s.bytes_taken(), 100);
    assert_eq!(s.current(), Phase::Streaming);
}

#[test]
fn data_that_does_not_fit_overflows() {
    let mut s = streaming();
    s.on_header::<()>(header(ZDATA)).unwrap();
    s.on_packet::<()>(PacketType(ZCRCG), 99, 100).unwrap();
    assert!(matches!(s.on_packet::<()>(PacketType(ZCRCG), 2, 100), Err(Error::Overflow)));
    // Overflow is found before the marker is looked at.
    assert!(matches!(s.on_packet::<()>(PacketType(ZCRCQ), 2, 100), Err(Error::Overflow)));
    assert_eq!(s.bytes_taken(), 99);
    assert_eq!(s.current(), Phase::Data { encoding: FrameEncoding(ZBIN32) });
    s.on_packet::<()>(PacketType(ZCRCE), 1, 100).unwrap();
    assert_eq!(s.bytes_taken(), 100);
}

#[test]
fn smaller_output_than_what_was_taken_overflows() {
    let mut s = streaming();
    s.on_header::<()>(header(ZDATA)).unwrap();
    s.on_packet::<()>(PacketType(ZCRCG), 60, 100).unwrap();
    assert!(matches!(s.on_packet::<()>(PacketType(ZCRCG), 0, 59), Err(Error::Overflow)));
    assert!(s.on_packet::<()>(PacketType(ZCRCG), 0, 60).is_ok());
    assert_eq!(s.bytes_taken(), 60);
}

#[test]
fn data_rejects_zcrcq_and_zcrcw() {
    for marker in [ZCRCQ, ZCRCW, 0x6c] {
        let mut s = streaming();
        s.on_header::<()>(header(ZDATA)).unwrap();
        assert!(matches!(s.on_packet::<()>(PacketType(marker), 5, 100), Err(Error::InvalidEscape(m)) if m == marker));
        assert_eq!(s.bytes_taken(), 0);
    }
}

#[test]
fn headers_and_packets_out_of_place() {
    let mut s = Session::new();
    assert!(matches!(s.on_packet::<()>(PacketType(ZCRCW), 0, 10), Err(Error::InvalidEscape(ZCRCW))));
    let mut s = Session::new();
    s.on_header::<()>(header(ZFILE)).unwrap();
    assert!(matches!(s.on_header::<()>(header(ZDATA)), Err(Error::UnexpectedFrame(_))));
    let mut s = Session::new();
    s.on_header::<()>(header(ZFIN)).unwrap();
    assert!(matches!(s.on_header::<()>(header(ZFIN)), Err(Error::UnexpectedFrame(_))));
    assert!(s.is_finishing());
}
