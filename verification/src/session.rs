//! The receiver's side of a ZMODEM session as a state machine: what each
//! frame header and each data subpacket does to it.

use vstd::prelude::*;
use crate::consts::{ZCRCE, ZCRCG, ZCRCW, ZDATA, ZEOF, ZFILE, ZFIN, ZHEX, ZRINIT, ZRPOS, ZRQINIT};
use crate::device::{as_events, as_reads, as_sends, Action, Attempt, Error};
use crate::proto::{FrameEncoding, FrameHeader, FrameType, PacketType};
use crate::wire::{
    frame_text, header_check_ok, header_run, header_step, header_under_way, header_waits,
    lemma_header_before, lemma_line_end_push, lemma_packet_before, line_end_fault, line_end_faults,
    line_end_of, long_wait, packet_check_ok, packet_run, packet_step, packet_under_way, short_wait,
    HeaderScan, PacketScan, SUBPACKET_LIMIT,
};

verus! {

/// Where a session stands.
#[derive(Clone, Copy, Debug, PartialEq, Eq, Structural)]
pub enum Phase {
    /// No file is under way. The receiver announces itself with `ZRINIT`
    /// and waits for a frame header.
    Idle,
    /// A `ZFILE` header has come in `encoding`; the subpacket with the
    /// file's metadata is next.
    AwaitMeta { encoding: FrameEncoding },
    /// The receiver has asked for the file from its start and waits for a
    /// frame header.
    Streaming,
    /// A `ZDATA` header has come in `encoding`; its data subpackets are
    /// next.
    Data { encoding: FrameEncoding },
    /// A `ZFIN` header has come; the receiver answers with `ZFIN` and
    /// reads the two bytes `O` `O`.
    Finishing,
}

/// What a frame of type `kind` in `encoding` does to a session in
/// `phase`: the phase it leads to, or `None` where the frame cannot be
/// taken.
pub open spec fn frame_next(phase: Phase, encoding: FrameEncoding, kind: FrameType) -> Option<
    Phase,
> {
    match phase {
        Phase::Idle => if kind.0 == ZRQINIT {
            Some(Phase::Idle)
        } else if kind.0 == ZFILE {
            Some(Phase::AwaitMeta { encoding })
        } else if kind.0 == ZFIN {
            Some(Phase::Finishing)
        } else {
            None
        },
        Phase::Streaming => if kind.0 == ZDATA {
            Some(Phase::Data { encoding })
        } else if kind.0 == ZEOF {
            Some(Phase::Idle)
        } else {
            None
        },
        _ => None,
    }
}

/// What the frame header `h` does to a session in `phase`.
pub open spec fn header_next(phase: Phase, h: FrameHeader) -> Option<Phase> {
    frame_next(phase, h.encoding, h.frame_type)
}

/// What the marker of a data subpacket does to a session in `phase`: the
/// phase it leads to, or `None` where the marker cannot be taken.
pub open spec fn packet_next(phase: Phase, kind: PacketType) -> Option<Phase> {
    match phase {
        Phase::AwaitMeta { .. } => if kind.0 == ZCRCW {
            Some(Phase::Streaming)
        } else {
            None
        },
        Phase::Data { encoding } => if kind.0 == ZCRCG {
            Some(Phase::Data { encoding })
        } else if kind.0 == ZCRCE {
            Some(Phase::Streaming)
        } else {
            None
        },
        _ => None,
    }
}

/// A session: its phase, how many bytes of file data it has taken, and
/// whether a file has been offered yet.
#[derive(Clone, Copy, Debug)]
pub struct Session {
    phase: Phase,
    offset: usize,
    started: bool,
}

impl Session {
    /// Where the session stands.
    pub closed spec fn phase(self) -> Phase {
        self.phase
    }

    /// How many bytes of file data the session has taken.
    pub closed spec fn offset(self) -> nat {
        self.offset as nat
    }

    /// Whether a `ZFILE` header has been taken.
    pub closed spec fn started(self) -> bool {
        self.started
    }

    /// A session before anything has happened.
    pub fn new() -> (s: Session)
        ensures
            s.phase() == Phase::Idle,
            s.offset() == 0,
            !s.started(),
    {
        Session { phase: Phase::Idle, offset: 0, started: false }
    }

    /// Where the session stands.
    pub fn current(&self) -> (p: Phase)
        ensures
            p == self.phase(),
    {
        self.phase
    }

    /// How many bytes of file data the session has taken.
    pub fn bytes_taken(&self) -> (n: usize)
        ensures
            n == self.offset(),
    {
        self.offset
    }

    /// Whether a `ZFILE` header has been taken: from then on the receiver
    /// waits the long time for each byte.
    pub fn has_started(&self) -> (b: bool)
        ensures
            b == self.started(),
    {
        self.started
    }

    /// Whether the session is in `Idle`.
    pub fn is_idle(&self) -> (b: bool)
        ensures
            b == (self.phase() is Idle),
    {
        match self.phase {
            Phase::Idle => true,
            _ => false,
        }
    }

    /// Whether the session has come to `Finishing`.
    pub fn is_finishing(&self) -> (b: bool)
        ensures
            b == (self.phase() is Finishing),
    {
        match self.phase {
            Phase::Finishing => true,
            _ => false,
        }
    }

    /// Takes the frame header `h`. In `Idle`, `ZRQINIT` stays in `Idle`,
    /// `ZFILE` leads to `AwaitMeta` and `ZFIN` to `Finishing`; in
    /// `Streaming`, `ZDATA` leads to `Data` and `ZEOF` to `Idle`. Any
    /// other header, and any header in another phase, is
    /// `UnexpectedFrame` and leaves the session as it was.
    pub fn on_header<E>(&mut self, h: FrameHeader) -> (r: Result<(), Error<E>>)
        ensures
            final(self).offset() == old(self).offset(),
            match header_next(old(self).phase(), h) {
                Some(next) => r is Ok && final(self).phase() == next && final(self).started() == (
                old(self).started() || h.frame_type.0 == ZFILE),
                None => r matches Err(Error::UnexpectedFrame(f)) && f == h && *final(self) == *old(self),
            },
    {
        let kind = h.frame_type.0;
        match self.phase {
            Phase::Idle => {
                if kind == ZRQINIT {
                    Ok(())
                } else if kind == ZFILE {
                    self.phase = Phase::AwaitMeta { encoding: h.encoding };
                    self.started = true;
                    Ok(())
                } else if kind == ZFIN {
                    self.phase = Phase::Finishing;
                    Ok(())
                } else {
                    Err(Error::UnexpectedFrame(h))
                }
            },
            Phase::Streaming => {
                if kind == ZDATA {
                    self.phase = Phase::Data { encoding: h.encoding };
                    Ok(())
                } else if kind == ZEOF {
                    self.phase = Phase::Idle;
                    Ok(())
                } else {
                    Err(Error::UnexpectedFrame(h))
                }
            },
            _ => Err(Error::UnexpectedFrame(h)),
        }
    }

    /// Takes a data subpacket of `len` bytes that ended with `kind`, for
    /// an output of `capacity` bytes.
    ///
    /// In `AwaitMeta` the payload is metadata and is not counted: `ZCRCW`
    /// leads to `Streaming`. In `Data` the payload is file data: if it
    /// does not fit behind what was taken already, that is `Overflow`;
    /// otherwise `ZCRCG` stays in `Data` and `ZCRCE` leads to `Streaming`,
    /// and the session has taken `len` bytes more. Any other marker is
    /// `InvalidEscape`. An error leaves the session as it was. The count
    /// of bytes taken never goes down.
    pub fn on_packet<E>(&mut self, kind: PacketType, len: usize, capacity: usize) -> (r: Result<
        (),
        Error<E>,
    >)
        ensures
            final(self).offset() >= old(self).offset(),
            old(self).offset() <= capacity ==> final(self).offset() <= capacity,
            final(self).started() == old(self).started(),
            match r {
                Ok(()) => {
                    &&& packet_next(old(self).phase(), kind) == Some(final(self).phase())
                    &&& final(self).offset() == old(self).offset() + (if old(self).phase() is Data {
                        len as nat
                    } else {
                        0
                    })
                },
                Err(Error::Overflow) => {
                    &&& old(self).phase() is Data
                    &&& old(self).offset() + len > capacity
                    &&& *final(self) == *old(self)
                },
                Err(Error::InvalidEscape(x)) => {
                    &&& x == kind.0
                    &&& packet_next(old(self).phase(), kind) is None
                    &&& !(old(self).phase() is Data && old(self).offset() + len > capacity)
                    &&& *final(self) == *old(self)
                },
                Err(_) => false,
            },
    {
        match self.phase {
            Phase::AwaitMeta { .. } => {
                if kind.0 == ZCRCW {
                    self.phase = Phase::Streaming;
                    Ok(())
                } else {
                    Err(Error::InvalidEscape(kind.0))
                }
            },
            Phase::Data { .. } => {
                if self.offset > capacity || len > capacity - self.offset {
                    Err(Error::Overflow)
                } else if kind.0 == ZCRCG {
                    self.offset = self.offset + len;
                    Ok(())
                } else if kind.0 == ZCRCE {
                    self.offset = self.offset + len;
                    self.phase = Phase::Streaming;
                    Ok(())
                } else {
                    Err(Error::InvalidEscape(kind.0))
                }
            },
            _ => Err(Error::InvalidEscape(kind.0)),
        }
    }
}

/// `n` and one more, up to the largest `u64`.
pub open spec fn bump(n: nat) -> nat {
    if n < u64::MAX {
        n + 1
    } else {
        n
    }
}

/// Why a session came to an end before its time, where the line itself
/// did not fail.
pub enum Failure {
    InvalidFrameEncoding(u8),
    /// A header that could not be taken: its encoding, and its type and
    /// data.
    UnexpectedFrame { encoding: u8, body: Seq<u8> },
    InvalidHex(u8),
    InvalidEscape(u8),
    Overflow,
    UnexpectedByte(u8),
    TimedOut,
}

/// What the receiver is in the middle of.
pub enum Reading {
    /// A frame header.
    Header(HeaderScan),
    /// A data subpacket.
    Packet(PacketScan),
    /// The two bytes `O` `O`, of which `seen` have come.
    Closing { seen: nat },
    /// Nothing: the session is over.
    Done,
    /// Nothing: the session has failed.
    Failed(Failure),
    /// Nothing: reads were made after the session had ended.
    Overrun,
}

/// A session as far as the reads made so far have carried it.
pub struct Run {
    /// Where the session stands.
    pub phase: Phase,
    /// Whether a `ZFILE` has been taken.
    pub started: bool,
    /// The file data taken, first byte first.
    pub data: Seq<u8>,
    /// Every byte that the receiver has sent.
    pub replies: Seq<u8>,
    /// How many frame checks had failed before what is being read now.
    pub crc_errors: nat,
    /// What the receiver is in the middle of.
    pub reading: Reading,
}

/// The frame by which the receiver announces itself.
pub open spec fn zrinit_text() -> Seq<u8> {
    frame_text(ZHEX, seq![ZRINIT, 0, 0, 0, 0])
}

/// The frame by which the receiver asks for the file from its start.
pub open spec fn zrpos_text() -> Seq<u8> {
    frame_text(ZHEX, seq![ZRPOS, 0, 0, 0, 0])
}

/// The frame by which the receiver closes the session.
pub open spec fn zfin_text() -> Seq<u8> {
    frame_text(ZHEX, seq![ZFIN, 0, 0, 0, 0])
}

/// A header of which nothing has been read.
pub open spec fn fresh_header() -> Reading {
    Reading::Header(HeaderScan::Hunting { after_pad: false })
}

/// A subpacket of which nothing has been read.
pub open spec fn fresh_packet() -> Reading {
    Reading::Packet(PacketScan::Body { payload: Seq::empty(), pending: false })
}

/// What a session in `phase` reads next when it has just come there.
pub open spec fn fresh_reading(phase: Phase) -> Reading {
    match phase {
        Phase::Idle => fresh_header(),
        Phase::Streaming => fresh_header(),
        Phase::AwaitMeta { .. } => fresh_packet(),
        Phase::Data { .. } => fresh_packet(),
        Phase::Finishing => Reading::Closing { seen: 0 },
    }
}

/// How many bytes the frame check of a subpacket has in `phase`.
pub open spec fn packet_crc_len(phase: Phase) -> nat {
    match phase {
        Phase::AwaitMeta { encoding } => encoding.crc_len(),
        Phase::Data { encoding } => encoding.crc_len(),
        _ => 2,
    }
}

/// The encoding of the frame that the subpackets of `phase` belong to.
pub open spec fn packet_encoding(phase: Phase) -> FrameEncoding {
    match phase {
        Phase::AwaitMeta { encoding } => encoding,
        Phase::Data { encoding } => encoding,
        _ => FrameEncoding(ZHEX),
    }
}

/// A session before any read: idle, and announced once.
pub open spec fn session_start(crc_errors: nat) -> Run {
    Run {
        phase: Phase::Idle,
        started: false,
        data: Seq::empty(),
        replies: zrinit_text(),
        crc_errors,
        reading: fresh_header(),
    }
}

/// The count of failed frame checks of `run` with what is being read
/// counted in: a header whose fields have all been read counts as soon as
/// its frame check is known, before its line end has come.
pub open spec fn counted_errors(run: Run) -> nat {
    match run.reading {
        Reading::Header(HeaderScan::Trailer { encoding, values, .. }) => if header_check_ok(
            encoding,
            values,
        ) {
            run.crc_errors
        } else {
            bump(run.crc_errors)
        },
        _ => run.crc_errors,
    }
}

/// The session `run` brought to an end by `failure`.
pub open spec fn failed(run: Run, failure: Failure) -> Run {
    Run { reading: Reading::Failed(failure), ..run }
}

/// What becomes of `run` when the header it is reading has come to
/// `scan`. A header read to its end is taken as `frame_next` says, and
/// answered: entering `Idle` with `ZRINIT`, entering `Finishing` with
/// `ZFIN`. A header that cannot be taken, or cannot be read, ends the
/// session.
pub open spec fn settle_header(run: Run, scan: HeaderScan) -> Run {
    match scan {
        HeaderScan::Done { encoding, values } => {
            let errors = if header_check_ok(encoding, values) {
                run.crc_errors
            } else {
                bump(run.crc_errors)
            };
            let counted = Run { crc_errors: errors, ..run };
            match frame_next(run.phase, FrameEncoding(encoding), FrameType(values[0])) {
                Some(Phase::Idle) => Run {
                    phase: Phase::Idle,
                    replies: run.replies + zrinit_text(),
                    reading: fresh_header(),
                    ..counted
                },
                Some(Phase::Finishing) => Run {
                    phase: Phase::Finishing,
                    replies: run.replies + zfin_text(),
                    reading: Reading::Closing { seen: 0 },
                    ..counted
                },
                Some(Phase::AwaitMeta { encoding: e }) => Run {
                    phase: Phase::AwaitMeta { encoding: e },
                    started: true,
                    reading: fresh_packet(),
                    ..counted
                },
                Some(next) => Run { phase: next, reading: fresh_reading(next), ..counted },
                None => failed(
                    counted,
                    Failure::UnexpectedFrame { encoding, body: values.take(5) },
                ),
            }
        },
        HeaderScan::BadEncoding { byte } => failed(run, Failure::InvalidFrameEncoding(byte)),
        HeaderScan::BadHex { byte } => failed(run, Failure::InvalidHex(byte)),
        HeaderScan::BadEscape { byte } => failed(run, Failure::InvalidEscape(byte)),
        HeaderScan::Overrun => Run { reading: Reading::Overrun, ..run },
        _ => Run { reading: Reading::Header(scan), ..run },
    }
}

/// What becomes of `run` when the subpacket it is reading has come to
/// `scan`, with room for `capacity` bytes of file data. A subpacket read
/// to its end is taken as `packet_next` says: metadata is dropped and
/// answered with `ZRPOS`, file data is put behind the data taken before.
/// A payload longer than `SUBPACKET_LIMIT`, or one for which there is no
/// room, ends the session with `Overflow`.
pub open spec fn settle_packet(capacity: nat, run: Run, scan: PacketScan) -> Run {
    match scan {
        PacketScan::Check { payload, marker, crc, partial } => if crc.len() < packet_crc_len(
            run.phase,
        ) {
            Run { reading: Reading::Packet(scan), ..run }
        } else {
            let errors = if packet_check_ok(packet_encoding(run.phase), payload, marker, crc) {
                run.crc_errors
            } else {
                bump(run.crc_errors)
            };
            let counted = Run { crc_errors: errors, ..run };
            if run.phase is Data && run.data.len() + payload.len() > capacity {
                failed(counted, Failure::Overflow)
            } else {
                match packet_next(run.phase, PacketType(marker)) {
                    Some(Phase::Streaming) => Run {
                        phase: Phase::Streaming,
                        data: if run.phase is Data {
                            run.data + payload
                        } else {
                            run.data
                        },
                        replies: if run.phase is Data {
                            run.replies
                        } else {
                            run.replies + zrpos_text()
                        },
                        reading: fresh_header(),
                        ..counted
                    },
                    Some(next) => Run {
                        phase: next,
                        data: run.data + payload,
                        reading: fresh_packet(),
                        ..counted
                    },
                    None => failed(counted, Failure::InvalidEscape(marker)),
                }
            }
        },
        PacketScan::Body { .. } => Run { reading: Reading::Packet(scan), ..run },
        PacketScan::TooLong => failed(run, Failure::Overflow),
        PacketScan::BadEscape { byte } => failed(run, Failure::InvalidEscape(byte)),
        PacketScan::Overrun => Run { reading: Reading::Overrun, ..run },
    }
}

/// The session after one more read: `Some` with the byte that it brought,
/// `None` if it timed out. A read that times out while the session is
/// idle makes the receiver announce itself again and look for a header
/// anew; at any other time it ends the session.
pub open spec fn session_step(capacity: nat, run: Run, event: Option<u8>) -> Run {
    match run.reading {
        Reading::Header(scan) => match event {
            Some(b) => settle_header(run, header_step(scan, b)),
            None => if run.phase is Idle {
                Run {
                    replies: run.replies + zrinit_text(),
                    crc_errors: counted_errors(run),
                    reading: fresh_header(),
                    ..run
                }
            } else {
                failed(Run { crc_errors: counted_errors(run), ..run }, Failure::TimedOut)
            },
        },
        Reading::Packet(scan) => match event {
            Some(b) => settle_packet(
                capacity,
                run,
                packet_step(SUBPACKET_LIMIT as nat, packet_crc_len(run.phase), scan, b),
            ),
            None => failed(run, Failure::TimedOut),
        },
        Reading::Closing { seen } => match event {
            Some(b) => if b != 0x4f {
                failed(run, Failure::UnexpectedByte(b))
            } else if seen == 0 {
                Run { reading: Reading::Closing { seen: 1 }, ..run }
            } else {
                Run { reading: Reading::Done, ..run }
            },
            None => failed(run, Failure::TimedOut),
        },
        _ => Run { reading: Reading::Overrun, ..run },
    }
}

/// The session after the reads `events`, made in order starting from
/// `run`.
pub open spec fn session_from(capacity: nat, run: Run, events: Seq<Option<u8>>) -> Run
    decreases events.len(),
{
    if events.len() == 0 {
        run
    } else {
        session_step(capacity, session_from(capacity, run, events.drop_last()), events.last())
    }
}

/// The session of a receiver that starts with `crc_errors` failed frame
/// checks on its count and room for `capacity` bytes of file data, after
/// the reads `events`.
pub open spec fn session_run(capacity: nat, crc_errors: nat, events: Seq<Option<u8>>) -> Run {
    session_from(capacity, session_start(crc_errors), events)
}

/// Reading on from where `head` led is reading `head` and then `tail`.
pub proof fn lemma_session_concat(
    capacity: nat,
    run: Run,
    head: Seq<Option<u8>>,
    tail: Seq<Option<u8>>,
)
    ensures
        session_from(capacity, run, head + tail) == session_from(
            capacity,
            session_from(capacity, run, head),
            tail,
        ),
    decreases tail.len(),
{
    if tail.len() == 0 {
        assert(head + tail =~= head);
    } else {
        assert((head + tail).drop_last() =~= head + tail.drop_last());
        lemma_session_concat(capacity, run, head, tail.drop_last());
    }
}

/// One read carries a session on by one step.
pub proof fn lemma_session_one(capacity: nat, run: Run, event: Option<u8>)
    ensures
        session_from(capacity, run, seq![event]) == session_step(capacity, run, event),
{
    assert(seq![event].drop_last() =~= Seq::<Option<u8>>::empty());
    assert(session_from(capacity, run, seq![event].drop_last()) == run);
}

/// While a session reads a header, the bytes that come carry it where
/// `header_run` says.
pub proof fn lemma_session_header(capacity: nat, run: Run, w: Seq<u8>)
    requires
        run.reading == fresh_header(),
        !(header_run(w) is Overrun),
    ensures
        session_from(capacity, run, as_events(w)) == settle_header(run, header_run(w)),
    decreases w.len(),
{
    if w.len() == 0 {
        assert(as_events(w) =~= Seq::<Option<u8>>::empty());
    } else {
        let front = w.drop_last();
        assert(as_events(w).drop_last() =~= as_events(front));
        assert(as_events(w).last() == Some(w.last()));
        lemma_session_header(capacity, run, front);
    }
}

/// While a session reads a subpacket, the bytes that come carry it where
/// `packet_run` says.
pub proof fn lemma_session_packet(capacity: nat, run: Run, w: Seq<u8>)
    requires
        run.reading == fresh_packet(),
        !(packet_run(SUBPACKET_LIMIT as nat, packet_crc_len(run.phase), w) is Overrun),
        packet_crc_len(run.phase) > 0,
    ensures
        session_from(capacity, run, as_events(w)) == settle_packet(
            capacity,
            run,
            packet_run(SUBPACKET_LIMIT as nat, packet_crc_len(run.phase), w),
        ),
    decreases w.len(),
{
    let n = packet_crc_len(run.phase);
    if w.len() == 0 {
        assert(as_events(w) =~= Seq::<Option<u8>>::empty());
    } else {
        let front = w.drop_last();
        assert(as_events(w).drop_last() =~= as_events(front));
        assert(as_events(w).last() == Some(w.last()));
        assert(front + seq![w.last()] =~= w);
        lemma_packet_prefix(n, front, w.last());
        lemma_session_packet(capacity, run, front);
    }
}

/// A subpacket that one more byte leaves unfinished or just finished was
/// unfinished, and within bounds, before that byte.
proof fn lemma_packet_prefix(crc_len: nat, front: Seq<u8>, b: u8)
    requires
        !(packet_run(SUBPACKET_LIMIT as nat, crc_len, front + seq![b]) is Overrun),
    ensures
        match packet_run(SUBPACKET_LIMIT as nat, crc_len, front) {
            PacketScan::Body { .. } => true,
            PacketScan::Check { crc, .. } => crc.len() < crc_len,
            _ => false,
        },
{
    assert((front + seq![b]).drop_last() =~= front);
}

/// One read never takes file data back, and never takes more than there
/// is room for.
proof fn lemma_step_grows(capacity: nat, run: Run, event: Option<u8>)
    requires
        run.data.len() <= capacity,
    ensures
        run.data.is_prefix_of(session_step(capacity, run, event).data),
        session_step(capacity, run, event).data.len() <= capacity,
        run.replies.is_prefix_of(session_step(capacity, run, event).replies),
{
    let next = session_step(capacity, run, event);
    assert(run.data.is_prefix_of(run.data));
    assert(run.replies.is_prefix_of(run.replies));
    assert(run.replies.is_prefix_of(run.replies + zrinit_text()));
    assert(run.replies.is_prefix_of(run.replies + zfin_text()));
    assert(run.replies.is_prefix_of(run.replies + zrpos_text()));
    match run.reading {
        Reading::Packet(scan) => match event {
            Some(b) => {
                match packet_step(SUBPACKET_LIMIT as nat, packet_crc_len(run.phase), scan, b) {
                    PacketScan::Check { payload, .. } => {
                        assert(run.data.is_prefix_of(run.data + payload));
                    },
                    _ => {},
                }
            },
            None => {},
        },
        _ => {},
    }
}

/// The file data that a session has taken only ever grows: whatever reads
/// follow, what was taken stays, and more may come behind it. So the
/// place in the output where the next data goes never moves back, and it
/// never moves beyond the end of the output.
pub proof fn session_data_grows(
    capacity: nat,
    crc_errors: nat,
    events: Seq<Option<u8>>,
    more: Seq<Option<u8>>,
)
    ensures
        session_run(capacity, crc_errors, events).data.is_prefix_of(
            session_run(capacity, crc_errors, events + more).data,
        ),
        session_run(capacity, crc_errors, events).data.len() <= session_run(
            capacity,
            crc_errors,
            events + more,
        ).data.len(),
        session_run(capacity, crc_errors, events + more).data.len() <= capacity,
        session_run(capacity, crc_errors, events).replies.is_prefix_of(
            session_run(capacity, crc_errors, events + more).replies,
        ),
    decreases more.len(),
{
    let start = session_start(crc_errors);
    lemma_run_bounded(capacity, crc_errors, events);
    if more.len() == 0 {
        assert(events + more =~= events);
        let run = session_run(capacity, crc_errors, events);
        assert(run.data.is_prefix_of(run.data));
        assert(run.replies.is_prefix_of(run.replies));
    } else {
        let front = more.drop_last();
        assert((events + more).drop_last() =~= events + front);
        session_data_grows(capacity, crc_errors, events, front);
        let mid = session_run(capacity, crc_errors, events + front);
        lemma_step_grows(capacity, mid, more.last());
        let a = session_run(capacity, crc_errors, events).data;
        let b = mid.data;
        let c = session_run(capacity, crc_errors, events + more).data;
        assert(a.is_prefix_of(c));
        let x = session_run(capacity, crc_errors, events).replies;
        let y = mid.replies;
        let z = session_run(capacity, crc_errors, events + more).replies;
        assert(x.is_prefix_of(z));
    }
}

/// A session never holds more file data than there is room for.
proof fn lemma_run_bounded(capacity: nat, crc_errors: nat, events: Seq<Option<u8>>)
    ensures
        session_run(capacity, crc_errors, events).data.len() <= capacity,
    decreases events.len(),
{
    if events.len() > 0 {
        lemma_run_bounded(capacity, crc_errors, events.drop_last());
        lemma_step_grows(
            capacity,
            session_run(capacity, crc_errors, events.drop_last()),
            events.last(),
        );
    }
}

/// How long the next read of a session is to wait at most, as seconds and
/// nanoseconds: half a second while the receiver looks for a header and
/// no file has been offered yet, ten minutes at any other time.
pub open spec fn session_wait(run: Run) -> (nat, nat) {
    match run.reading {
        Reading::Header(HeaderScan::Hunting { .. }) => if run.started {
            long_wait()
        } else {
            short_wait()
        },
        _ => long_wait(),
    }
}

/// What a session that stands at `run` and has sent `sent` bytes of its
/// replies asks of the line next: to take the next byte of the replies,
/// if one is owed, and else to bring a byte, waiting as `session_wait`
/// says.
pub open spec fn session_call(run: Run, sent: int) -> Attempt {
    if 0 <= sent < run.replies.len() {
        Attempt::Send(run.replies[sent])
    } else {
        Attempt::Read(session_wait(run))
    }
}

/// How long each of the first `count` of the reads `events` was to wait,
/// for a session that stood at `run` before them.
pub open spec fn session_waits(
    capacity: nat,
    run: Run,
    events: Seq<Option<u8>>,
    count: nat,
) -> Seq<(nat, nat)> {
    Seq::new(count, |i: int| session_wait(session_from(capacity, run, events.take(i))))
}

/// The waits of reads made in two runs are those of the first run and
/// then those of the second.
pub proof fn lemma_session_waits_concat(
    capacity: nat,
    run: Run,
    head: Seq<Option<u8>>,
    tail: Seq<Option<u8>>,
)
    ensures
        session_waits(capacity, run, head + tail, head.len() + tail.len()) == session_waits(
            capacity,
            run,
            head,
            head.len(),
        ) + session_waits(capacity, session_from(capacity, run, head), tail, tail.len()),
{
    let whole = session_waits(capacity, run, head + tail, head.len() + tail.len());
    let first = session_waits(capacity, run, head, head.len());
    let mid = session_from(capacity, run, head);
    let second = session_waits(capacity, mid, tail, tail.len());
    assert forall|i: int| 0 <= i < head.len() + tail.len() implies whole[i] == (first + second)[i] by {
        if i < head.len() {
            assert((head + tail).take(i) =~= head.take(i));
        } else {
            let rest = tail.take(i - head.len());
            assert((head + tail).take(i) =~= head + rest);
            lemma_session_concat(capacity, run, head, rest);
        }
    }
    assert(whole =~= first + second);
}

/// What the read `event` adds to the count of faulty line-end bytes of
/// a session that stands at `run`: the fault of the byte it brought, if
/// the session is reading the line end behind a hexadecimal header.
pub open spec fn step_line_faults(run: Run, event: Option<u8>) -> nat {
    match (run.reading, event) {
        (Reading::Header(HeaderScan::Trailer { seen, .. }), Some(b)) => line_end_fault(seen, b),
        _ => 0,
    }
}

/// How many bytes that are not what a line end holds the reads `events`
/// bring to a session that stands at `run`, in the line ends behind its
/// hexadecimal headers.
pub open spec fn session_line_faults(capacity: nat, run: Run, events: Seq<Option<u8>>) -> nat
    decreases events.len(),
{
    if events.len() == 0 {
        0
    } else {
        session_line_faults(capacity, run, events.drop_last()) + step_line_faults(
            session_from(capacity, run, events.drop_last()),
            events.last(),
        )
    }
}

/// The faulty line-end bytes of two runs of reads are those of the first
/// and those of the second.
pub proof fn lemma_line_faults_concat(
    capacity: nat,
    run: Run,
    head: Seq<Option<u8>>,
    tail: Seq<Option<u8>>,
)
    ensures
        session_line_faults(capacity, run, head + tail) == session_line_faults(capacity, run, head)
            + session_line_faults(capacity, session_from(capacity, run, head), tail),
    decreases tail.len(),
{
    if tail.len() == 0 {
        assert(head + tail =~= head);
    } else {
        let front = tail.drop_last();
        assert((head + tail).drop_last() =~= head + front);
        assert((head + tail).last() == tail.last());
        lemma_line_faults_concat(capacity, run, head, front);
        lemma_session_concat(capacity, run, head, front);
    }
}

/// Once a session reads its last two bytes, or has ended, it sends
/// nothing more.
pub proof fn lemma_closing_quiet(capacity: nat, run: Run, events: Seq<Option<u8>>)
    requires
        !(run.reading is Header) && !(run.reading is Packet),
    ensures
        session_trace(capacity, run, events) == as_reads(events),
        session_line_faults(capacity, run, events) == 0,
        session_from(capacity, run, events).replies == run.replies,
        !(session_from(capacity, run, events).reading is Header),
        !(session_from(capacity, run, events).reading is Packet),
    decreases events.len(),
{
    if events.len() == 0 {
        assert(as_reads(events) =~= Seq::<Action>::empty());
    } else {
        let front = events.drop_last();
        lemma_closing_quiet(capacity, run, front);
        let before = session_from(capacity, run, front);
        assert(before.replies.skip(before.replies.len() as int) =~= Seq::<u8>::empty());
        assert(as_sends(Seq::<u8>::empty()) =~= Seq::<Action>::empty());
        assert(as_reads(front).push(Action::Read(events.last())) + Seq::<Action>::empty()
            =~= as_reads(events));
    }
}

/// What becomes of `run`, which waits for `O` `O`, when the bytes `w`
/// have come and then, if `hushed` is set, a read has timed out.
pub open spec fn closing_end(run: Run, w: Seq<u8>, hushed: bool) -> Run {
    if w.len() == 0 {
        if hushed {
            failed(run, Failure::TimedOut)
        } else {
            run
        }
    } else if w[0] != 0x4f {
        failed(run, Failure::UnexpectedByte(w[0]))
    } else if w.len() == 1 {
        if hushed {
            failed(run, Failure::TimedOut)
        } else {
            Run { reading: Reading::Closing { seen: 1 }, ..run }
        }
    } else if w[1] != 0x4f {
        failed(run, Failure::UnexpectedByte(w[1]))
    } else {
        Run { reading: Reading::Done, ..run }
    }
}

/// The end of a session: the two bytes are read with the long wait, and
/// the session is over when both are `O`.
pub proof fn lemma_session_closing(capacity: nat, run: Run, w: Seq<u8>, hushed: bool)
    requires
        run.reading == (Reading::Closing { seen: 0 }),
        w.len() <= 2,
        w.len() == 2 ==> w[0] == 0x4f,
        hushed ==> w.len() < 2 && (w.len() == 1 ==> w[0] == 0x4f),
    ensures
        ({
            let since = as_events(w) + (if hushed {
                seq![None::<u8>]
            } else {
                Seq::<Option<u8>>::empty()
            });
            &&& session_from(capacity, run, since) == closing_end(run, w, hushed)
            &&& session_waits(capacity, run, since, since.len()) == Seq::new(
                since.len(),
                |i: int| (600nat, 0nat),
            )
            &&& session_trace(capacity, run, since) == as_reads(since)
            &&& session_line_faults(capacity, run, since) == 0
            &&& session_from(capacity, run, since).replies == run.replies
        }),
{
    let none = Seq::<Option<u8>>::empty();
    let hush = if hushed {
        seq![None::<u8>]
    } else {
        none
    };
    let since = as_events(w) + hush;
    let one = Run { reading: Reading::Closing { seen: 1 }, ..run };
    assert(session_from(capacity, run, none) == run);
    if w.len() == 0 {
        assert(as_events(w) =~= none);
        if hushed {
            assert(since =~= seq![None::<u8>]);
            lemma_session_one(capacity, run, None);
        } else {
            assert(since =~= none);
        }
    } else if w.len() == 1 {
        let first = seq![Some(w[0])];
        assert(as_events(w) =~= first);
        lemma_session_one(capacity, run, Some(w[0]));
        if hushed {
            assert(since =~= first + seq![None::<u8>]);
            lemma_session_concat(capacity, run, first, seq![None::<u8>]);
            lemma_session_one(capacity, one, None);
        } else {
            assert(since =~= first);
        }
    } else {
        let first = seq![Some(w[0])];
        let second = seq![Some(w[1])];
        assert(since =~= first + second);
        lemma_session_one(capacity, run, Some(w[0]));
        lemma_session_concat(capacity, run, first, second);
        lemma_session_one(capacity, one, Some(w[1]));
    }
    lemma_closing_quiet(capacity, run, since);
    let owed = session_waits(capacity, run, since, since.len());
    let long = Seq::new(since.len(), |i: int| (600nat, 0nat));
    assert forall|i: int| 0 <= i < since.len() implies owed[i] == long[i] by {
        if i == 0 {
            assert(since.take(0) =~= none);
        } else {
            assert(since.take(1) =~= seq![Some(w[0])]);
            lemma_session_one(capacity, run, Some(w[0]));
        }
    }
    assert(owed =~= long);
}

/// One step of a session that reads a header: the bytes `w` and then, if
/// `hushed` is set, a read that timed out carry the session where the
/// header scan says, and each read waits as the session stands before it.
pub proof fn lemma_header_step(capacity: nat, run: Run, w: Seq<u8>, hushed: bool)
    requires
        run.reading == fresh_header(),
        !(header_run(w) is Overrun),
        hushed ==> header_under_way(header_run(w)),
    ensures
        ({
            let since = as_events(w) + (if hushed {
                seq![None::<u8>]
            } else {
                Seq::<Option<u8>>::empty()
            });
            let read = settle_header(run, header_run(w));
            &&& session_from(capacity, run, since) == (if hushed {
                session_step(capacity, read, None)
            } else {
                read
            })
            &&& session_waits(capacity, run, since, since.len()) == header_waits(
                w,
                since.len(),
                session_wait(run),
            )
        }),
{
    let none = Seq::<Option<u8>>::empty();
    let hush = if hushed {
        seq![None::<u8>]
    } else {
        none
    };
    let bytes = as_events(w);
    let since = bytes + hush;
    let read = settle_header(run, header_run(w));
    lemma_session_header(capacity, run, w);
    if hushed {
        lemma_session_concat(capacity, run, bytes, hush);
        lemma_session_one(capacity, read, None);
    } else {
        assert(since =~= bytes);
    }
    let n = since.len();
    let asked = header_waits(w, n, session_wait(run));
    let owed = session_waits(capacity, run, since, n);
    assert forall|i: int| 0 <= i < n implies asked[i] == owed[i] by {
        assert(since.take(i) =~= as_events(w.take(i)));
        if i < w.len() {
            lemma_header_before(HeaderScan::Hunting { after_pad: false }, w, i);
        } else {
            assert(w.take(i) =~= w);
        }
        lemma_session_header(capacity, run, w.take(i));
    }
    assert(asked =~= owed);
}

/// One step of a session that reads a subpacket: the bytes `w` and then,
/// if `hushed` is set, a read that timed out carry the session where the
/// subpacket scan says, and every read waits the long time.
pub proof fn lemma_packet_step(capacity: nat, run: Run, w: Seq<u8>, hushed: bool)
    requires
        run.reading == fresh_packet(),
        packet_crc_len(run.phase) > 0,
        !(packet_run(SUBPACKET_LIMIT as nat, packet_crc_len(run.phase), w) is Overrun),
        hushed ==> packet_under_way(
            packet_crc_len(run.phase),
            packet_run(SUBPACKET_LIMIT as nat, packet_crc_len(run.phase), w),
        ),
    ensures
        ({
            let since = as_events(w) + (if hushed {
                seq![None::<u8>]
            } else {
                Seq::<Option<u8>>::empty()
            });
            let read = settle_packet(capacity, run, packet_run(SUBPACKET_LIMIT as nat, packet_crc_len(run.phase), w));
            &&& session_from(capacity, run, since) == (if hushed {
                failed(run, Failure::TimedOut)
            } else {
                read
            })
            &&& session_waits(capacity, run, since, since.len()) == Seq::new(
                since.len(),
                |i: int| (600nat, 0nat),
            )
        }),
{
    let none = Seq::<Option<u8>>::empty();
    let hush = if hushed {
        seq![None::<u8>]
    } else {
        none
    };
    let crc_len = packet_crc_len(run.phase);
    let bytes = as_events(w);
    let since = bytes + hush;
    let read = settle_packet(capacity, run, packet_run(SUBPACKET_LIMIT as nat, crc_len, w));
    lemma_session_packet(capacity, run, w);
    if hushed {
        lemma_session_concat(capacity, run, bytes, hush);
        lemma_session_one(capacity, read, None);
    } else {
        assert(since =~= bytes);
    }
    let n = since.len();
    let asked = Seq::new(n, |i: int| (600nat, 0nat));
    let owed = session_waits(capacity, run, since, n);
    assert forall|i: int| 0 <= i < n implies asked[i] == owed[i] by {
        assert(since.take(i) =~= as_events(w.take(i)));
        if i < w.len() {
            lemma_packet_before(SUBPACKET_LIMIT as nat, crc_len, w, i);
        } else {
            assert(w.take(i) =~= w);
        }
        lemma_session_packet(capacity, run, w.take(i));
    }
    assert(asked =~= owed);
}

/// What goes over the line while a session that stands at `run` makes the
/// reads `events`: each read, and behind it the bytes that the receiver
/// sends because of it, before the next read is made.
pub open spec fn session_trace(capacity: nat, run: Run, events: Seq<Option<u8>>) -> Seq<Action>
    decreases events.len(),
{
    if events.len() == 0 {
        Seq::empty()
    } else {
        let before = session_from(capacity, run, events.drop_last());
        let after = session_step(capacity, before, events.last());
        session_trace(capacity, run, events.drop_last()).push(Action::Read(events.last()))
            + as_sends(after.replies.skip(before.replies.len() as int))
    }
}

/// What goes over the line in two runs of reads is what goes over it in
/// the first and then in the second.
pub proof fn lemma_session_trace_concat(
    capacity: nat,
    run: Run,
    head: Seq<Option<u8>>,
    tail: Seq<Option<u8>>,
)
    ensures
        session_trace(capacity, run, head + tail) == session_trace(capacity, run, head)
            + session_trace(capacity, session_from(capacity, run, head), tail),
    decreases tail.len(),
{
    let mid = session_from(capacity, run, head);
    if tail.len() == 0 {
        assert(head + tail =~= head);
        assert(session_trace(capacity, run, head) + Seq::<Action>::empty() =~= session_trace(
            capacity,
            run,
            head,
        ));
    } else {
        let front = tail.drop_last();
        assert((head + tail).drop_last() =~= head + front);
        lemma_session_trace_concat(capacity, run, head, front);
        lemma_session_concat(capacity, run, head, front);
        let a = session_trace(capacity, run, head);
        let b = session_trace(capacity, mid, front);
        let before = session_from(capacity, mid, front);
        let after = session_step(capacity, before, tail.last());
        let sends = as_sends(after.replies.skip(before.replies.len() as int));
        assert((a + b).push(Action::Read(tail.last())) + sends =~= a + (b.push(
            Action::Read(tail.last()),
        ) + sends));
    }
}

/// While a header is under way nothing is sent.
proof fn lemma_header_quiet(capacity: nat, run: Run, w: Seq<u8>)
    requires
        run.reading == fresh_header(),
        header_under_way(header_run(w)),
    ensures
        session_trace(capacity, run, as_events(w)) == as_reads(as_events(w)),
        session_line_faults(capacity, run, as_events(w)) == line_end_faults(
            line_end_of(header_run(w), w),
        ),
        session_from(capacity, run, as_events(w)) == (Run {
            reading: Reading::Header(header_run(w)),
            ..run
        }),
    decreases w.len(),
{
    lemma_session_header(capacity, run, w);
    if w.len() == 0 {
        assert(as_events(w) =~= Seq::<Option<u8>>::empty());
        assert(as_reads(as_events(w)) =~= Seq::<Action>::empty());
        assert(line_end_of(header_run(w), w) =~= Seq::<u8>::empty());
    } else {
        let front = w.drop_last();
        assert(as_events(w).drop_last() =~= as_events(front));
        assert(as_events(w).last() == Some(w.last()));
        lemma_header_quiet(capacity, run, front);
        assert(front.push(w.last()) =~= w);
        lemma_line_end_push(HeaderScan::Hunting { after_pad: false }, front, w.last());
        let before = session_from(capacity, run, as_events(front));
        assert(before.replies.skip(before.replies.len() as int) =~= Seq::<u8>::empty());
        assert(as_sends(Seq::<u8>::empty()) =~= Seq::<Action>::empty());
        assert(as_reads(as_events(front)).push(Action::Read(Some(w.last()))) + Seq::<
            Action,
        >::empty() =~= as_reads(as_events(w)));
    }
}

/// While a subpacket is under way nothing is sent.
proof fn lemma_packet_quiet(capacity: nat, run: Run, w: Seq<u8>)
    requires
        run.reading == fresh_packet(),
        packet_crc_len(run.phase) > 0,
        packet_under_way(
            packet_crc_len(run.phase),
            packet_run(SUBPACKET_LIMIT as nat, packet_crc_len(run.phase), w),
        ),
    ensures
        session_trace(capacity, run, as_events(w)) == as_reads(as_events(w)),
        session_line_faults(capacity, run, as_events(w)) == 0,
        session_from(capacity, run, as_events(w)) == (Run {
            reading: Reading::Packet(
                packet_run(SUBPACKET_LIMIT as nat, packet_crc_len(run.phase), w),
            ),
            ..run
        }),
    decreases w.len(),
{
    lemma_session_packet(capacity, run, w);
    if w.len() == 0 {
        assert(as_events(w) =~= Seq::<Option<u8>>::empty());
        assert(as_reads(as_events(w)) =~= Seq::<Action>::empty());
    } else {
        let front = w.drop_last();
        assert(as_events(w).drop_last() =~= as_events(front));
        assert(as_events(w).last() == Some(w.last()));
        assert(front + seq![w.last()] =~= w);
        lemma_packet_prefix(packet_crc_len(run.phase), front, w.last());
        lemma_packet_quiet(capacity, run, front);
        let before = session_from(capacity, run, as_events(front));
        assert(before.replies.skip(before.replies.len() as int) =~= Seq::<u8>::empty());
        assert(as_sends(Seq::<u8>::empty()) =~= Seq::<Action>::empty());
        assert(as_reads(as_events(front)).push(Action::Read(Some(w.last()))) + Seq::<
            Action,
        >::empty() =~= as_reads(as_events(w)));
    }
}

/// In one step of a session every read comes before what the receiver
/// sends because of the step: `reads` carry the session from `run` to
/// `after` without anything being sent before the last of them.
pub open spec fn reads_then_replies(
    capacity: nat,
    run: Run,
    reads: Seq<Option<u8>>,
) -> bool {
    let after = session_from(capacity, run, reads);
    &&& run.replies.is_prefix_of(after.replies)
    &&& session_trace(capacity, run, reads) == as_reads(reads) + as_sends(
        after.replies.skip(run.replies.len() as int),
    )
}

/// In a step that reads a header the reads come first.
pub proof fn lemma_header_trace(capacity: nat, run: Run, w: Seq<u8>, hushed: bool)
    requires
        run.reading == fresh_header(),
        !(header_run(w) is Overrun),
        hushed ==> header_under_way(header_run(w)),
    ensures
        reads_then_replies(
            capacity,
            run,
            as_events(w) + (if hushed {
                seq![None::<u8>]
            } else {
                Seq::<Option<u8>>::empty()
            }),
        ),
        session_line_faults(
            capacity,
            run,
            as_events(w) + (if hushed {
                seq![None::<u8>]
            } else {
                Seq::<Option<u8>>::empty()
            }),
        ) == line_end_faults(line_end_of(header_run(w), w)),
{
    let none = Seq::<Option<u8>>::empty();
    let hush = seq![None::<u8>];
    let nothing = Seq::<u8>::empty();
    assert(as_sends(nothing) =~= Seq::<Action>::empty());
    assert(run.replies.is_prefix_of(run.replies));
    assert(run.replies.skip(run.replies.len() as int) =~= nothing);
    assert(run.replies.is_prefix_of(run.replies + zrinit_text()));
    assert(run.replies.is_prefix_of(run.replies + zfin_text()));
    assert((run.replies + zrinit_text()).skip(run.replies.len() as int) =~= zrinit_text());
    assert((run.replies + zfin_text()).skip(run.replies.len() as int) =~= zfin_text());
    if hushed {
        let reads = as_events(w) + hush;
        lemma_header_quiet(capacity, run, w);
        assert(reads.drop_last() =~= as_events(w));
        lemma_session_concat(capacity, run, as_events(w), hush);
        lemma_session_one(capacity, session_from(capacity, run, as_events(w)), None);
        assert(as_reads(as_events(w)).push(Action::Read(None)) =~= as_reads(reads));
    } else if header_under_way(header_run(w)) {
        lemma_header_quiet(capacity, run, w);
        assert(as_events(w) + none =~= as_events(w));
        assert(as_reads(as_events(w)) + Seq::<Action>::empty() =~= as_reads(as_events(w)));
    } else {
        let reads = as_events(w);
        assert(reads + none =~= reads);
        let front = w.drop_last();
        lemma_header_before(HeaderScan::Hunting { after_pad: false }, w, w.len() - 1);
        assert(w.take(w.len() - 1) =~= front);
        lemma_header_quiet(capacity, run, front);
        lemma_session_header(capacity, run, w);
        assert(front.push(w.last()) =~= w);
        lemma_line_end_push(HeaderScan::Hunting { after_pad: false }, front, w.last());
        assert(reads.drop_last() =~= as_events(front));
        assert(reads.last() == Some(w.last()));
        assert(as_reads(as_events(front)).push(Action::Read(Some(w.last()))) =~= as_reads(reads));
    }
}

/// In a step that reads a subpacket the reads come first.
pub proof fn lemma_packet_trace(capacity: nat, run: Run, w: Seq<u8>, hushed: bool)
    requires
        run.reading == fresh_packet(),
        packet_crc_len(run.phase) > 0,
        !(packet_run(SUBPACKET_LIMIT as nat, packet_crc_len(run.phase), w) is Overrun),
        hushed ==> packet_under_way(
            packet_crc_len(run.phase),
            packet_run(SUBPACKET_LIMIT as nat, packet_crc_len(run.phase), w),
        ),
    ensures
        reads_then_replies(
            capacity,
            run,
            as_events(w) + (if hushed {
                seq![None::<u8>]
            } else {
                Seq::<Option<u8>>::empty()
            }),
        ),
        session_line_faults(
            capacity,
            run,
            as_events(w) + (if hushed {
                seq![None::<u8>]
            } else {
                Seq::<Option<u8>>::empty()
            }),
        ) == 0,
{
    let crc_len = packet_crc_len(run.phase);
    let scan = packet_run(SUBPACKET_LIMIT as nat, crc_len, w);
    let none = Seq::<Option<u8>>::empty();
    let hush = seq![None::<u8>];
    let nothing = Seq::<u8>::empty();
    assert(as_sends(nothing) =~= Seq::<Action>::empty());
    assert(run.replies.is_prefix_of(run.replies));
    assert(run.replies.skip(run.replies.len() as int) =~= nothing);
    assert(run.replies.is_prefix_of(run.replies + zrpos_text()));
    assert((run.replies + zrpos_text()).skip(run.replies.len() as int) =~= zrpos_text());
    if hushed {
        let reads = as_events(w) + hush;
        lemma_packet_quiet(capacity, run, w);
        assert(reads.drop_last() =~= as_events(w));
        lemma_session_concat(capacity, run, as_events(w), hush);
        lemma_session_one(capacity, session_from(capacity, run, as_events(w)), None);
        assert(as_reads(as_events(w)).push(Action::Read(None)) =~= as_reads(reads));
    } else if packet_under_way(crc_len, scan) {
        lemma_packet_quiet(capacity, run, w);
        assert(as_events(w) + none =~= as_events(w));
        assert(as_reads(as_events(w)) + Seq::<Action>::empty() =~= as_reads(as_events(w)));
    } else {
        let reads = as_events(w);
        assert(reads + none =~= reads);
        let front = w.drop_last();
        lemma_packet_before(SUBPACKET_LIMIT as nat, crc_len, w, w.len() - 1);
        assert(w.take(w.len() - 1) =~= front);
        lemma_packet_quiet(capacity, run, front);
        lemma_session_packet(capacity, run, w);
        assert(reads.drop_last() =~= as_events(front));
        assert(reads.last() == Some(w.last()));
        assert(as_reads(as_events(front)).push(Action::Read(Some(w.last()))) =~= as_reads(reads));
    }
}

} // verus!
