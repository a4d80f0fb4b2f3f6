//! The ZMODEM receiver.

use vstd::prelude::*;
use crate::consts::{CR, LF, XON, ZACK, ZBIN32, ZDLE, ZFIN, ZHEX, ZPAD, ZRINIT, ZRPOS};
use crate::crc::{crc16, crc32};
use crate::device::{
    as_events, as_reads, as_sends, lemma_events_concat, lemma_reads_concat, lemma_sends_concat,
    one_fault_more, reads_after, Action, Attempt, Device, Error, Fault, SerialDevice,
};
use crate::escape::{
    escape_meaning, keeps, lemma_unwrap_push, unescape, unwrap_payload, unwrap_run, Escape,
    Unwrapped,
};
use crate::hex::{from_hex, hex_encode, to_hex, FromHexError};
use crate::proto::{
    le_bytes, u16_from_be, u16_to_be, u32_from_be, FrameEncoding, FrameHeader, FrameType,
    PacketType,
};
use crate::session::bump;
use crate::time::Duration;
use crate::wire::{
    after_fields, field_text, fields_run, frame_text, frame_wire, header_check_ok, header_fields,
    header_from, header_run, header_under_way, header_wait, header_waits, hex_text,
    lemma_fields_unit, lemma_header_concat, lemma_header_fields, lemma_header_one,
    lemma_header_trailer, lemma_hex_text_concat, lemma_hunt_is_over, lemma_line_end_within,
    lemma_packet_body, lemma_packet_push, lemma_packet_tail, lemma_waits_behind_start,
    lemma_waits_hunting, line_end_fault, line_end_faults, line_end_of, long_wait, packet_check_ok,
    packet_limit, packet_payload, packet_run, packet_under_way, scan_values, unit_decode, Fields,
    HeaderScan, PacketScan, RecvEnc, Unit, SUBPACKET_LIMIT, TIMEOUT_SECS,
};

verus! {

/// Whether `r` is what reading the bytes `w` as `N` field bytes under `enc`
/// comes to: the bytes they spell, the error they hold, or a failure of the
/// line before they were complete.
pub open spec fn fields_result<E, const N: usize>(
    enc: RecvEnc,
    w: Seq<u8>,
    r: Result<[u8; N], Error<E>>,
) -> bool {
    match r {
        Ok(a) => fields_run(enc, N as nat, w) == (Fields::Reading {
            values: a@,
            partial: Seq::empty(),
        }),
        Err(Error::InvalidHex(x)) => fields_run(enc, N as nat, w) == (Fields::BadHex { byte: x }),
        Err(Error::InvalidEscape(x)) => fields_run(enc, N as nat, w) == (Fields::BadEscape {
            byte: x,
        }),
        Err(Error::TimedOut) => fields_run(enc, N as nat, w) matches Fields::Reading { values, .. }
            && values.len() < N,
        Err(Error::Device(_)) => fields_run(enc, N as nat, w) matches Fields::Reading {
            values,
            ..
        } && values.len() < N,
        Err(_) => false,
    }
}

/// Whether `r` is what reading the bytes `w` as a data subpacket of a
/// frame in `encoding` comes to, into a buffer that held `before` and
/// holds `buf` afterwards. The payload may be as long as the buffer and
/// no longer than `SUBPACKET_LIMIT`; the byte that would make it longer is
/// `Overflow`. Whatever the result, the buffer holds the payload read so
/// far, and behind it what it held before.
pub open spec fn packet_result<E>(
    encoding: FrameEncoding,
    w: Seq<u8>,
    before: Seq<u8>,
    buf: Seq<u8>,
    r: Result<(PacketType, usize), Error<E>>,
) -> bool {
    let limit = packet_limit(before.len());
    let state = packet_run(limit, encoding.crc_len(), w);
    &&& keeps(buf, before, packet_payload(limit, encoding.crc_len(), w))
    &&& match r {
        Ok((kind, len)) => {
            &&& len <= limit
            &&& state matches PacketScan::Check { payload, marker, crc, partial }
            &&& payload == buf.take(len as int)
            &&& marker == kind.0
            &&& crc.len() == encoding.crc_len()
            &&& partial.len() == 0
        },
        Err(Error::Overflow) => state is TooLong,
        Err(Error::InvalidEscape(x)) => state == (PacketScan::BadEscape { byte: x }),
        Err(Error::TimedOut) => packet_under_way(encoding.crc_len(), state),
        Err(Error::Device(_)) => packet_under_way(encoding.crc_len(), state),
        Err(_) => false,
    }
}

/// The count of failed frame checks after the bytes `w` were read as a
/// data subpacket of at most `limit` bytes: one more than `errors` if the
/// subpacket was read to its end and its frame check is not that of its
/// payload and marker.
pub open spec fn packet_errors(
    limit: nat,
    encoding: FrameEncoding,
    w: Seq<u8>,
    errors: nat,
) -> nat {
    match packet_run(limit, encoding.crc_len(), w) {
        PacketScan::Check { payload, marker, crc, partial } => if crc.len() == encoding.crc_len()
            && !packet_check_ok(encoding, payload, marker, crc) {
            bump(errors)
        } else {
            errors
        },
        _ => errors,
    }
}

/// Whether `r` is what a header scan that has come to `state` amounts to.
pub open spec fn header_outcome<E>(state: HeaderScan, r: Result<FrameHeader, Error<E>>) -> bool {
    match r {
        Ok(h) => {
            &&& state matches HeaderScan::Done { encoding, values }
            &&& h.encoding.0 == encoding
            &&& values.len() == header_fields(encoding)
            &&& h.checked_bytes() == values.take(5)
        },
        Err(Error::InvalidFrameEncoding(e)) => state == (HeaderScan::BadEncoding { byte: e.0 }),
        Err(Error::InvalidHex(x)) => state == (HeaderScan::BadHex { byte: x }),
        Err(Error::InvalidEscape(x)) => state == (HeaderScan::BadEscape { byte: x }),
        Err(Error::TimedOut) => header_under_way(state),
        Err(Error::Device(_)) => header_under_way(state),
        Err(_) => false,
    }
}

/// Whether `r` is what reading the bytes `w` as a frame header comes to.
pub open spec fn header_result<E>(w: Seq<u8>, r: Result<FrameHeader, Error<E>>) -> bool {
    header_outcome(header_run(w), r)
}

/// The count of failed frame checks after a header scan has come to
/// `state`: one more than `errors` if all fields were read and the frame
/// check is not that of type and data.
pub open spec fn header_errors_at(state: HeaderScan, errors: nat) -> nat {
    match state {
        HeaderScan::Done { encoding, values } => if header_check_ok(encoding, values) {
            errors
        } else {
            bump(errors)
        },
        HeaderScan::Trailer { encoding, values, .. } => if header_check_ok(encoding, values) {
            errors
        } else {
            bump(errors)
        },
        _ => errors,
    }
}

/// The count of failed frame checks after the bytes `w` were read as a
/// frame header.
pub open spec fn header_errors(w: Seq<u8>, errors: nat) -> nat {
    header_errors_at(header_run(w), errors)
}

/// The count of faulty line-end bytes after the bytes `w` were read as a
/// frame header, `errors` having been counted before.
pub open spec fn line_end_errors_behind(w: Seq<u8>, errors: nat) -> nat {
    bump_by(errors, line_end_faults(line_end_of(header_run(w), w)))
}

/// How many reads of the line a receiver made by `Receiver::new` may make.
pub const READ_LIMIT: u64 = 0xffff_ffff_ffff_ffff;

/// The receiving end of a ZMODEM session on a serial line.
pub struct Receiver<D: SerialDevice> {
    dev: Device<D>,
    crc_errors: u64,
    line_end_errors: u64,
}

/// `n` and `more`, up to the largest `u64`.
pub open spec fn bump_by(n: nat, more: nat) -> nat {
    if n + more < u64::MAX {
        n + more
    } else {
        u64::MAX as nat
    }
}

/// Whether `r` is what reading the bytes `w` as one field byte under `enc`
/// comes to: the byte they spell, the error they hold, or a failure of the
/// line before they were complete.
pub open spec fn unit_result<E>(enc: RecvEnc, w: Seq<u8>, r: Result<u8, Error<E>>) -> bool {
    match r {
        Ok(v) => unit_decode(enc, w) == Unit::Value(v),
        Err(Error::InvalidHex(x)) => unit_decode(enc, w) == Unit::BadHex(x),
        Err(Error::InvalidEscape(x)) => unit_decode(enc, w) == Unit::BadEscape(x),
        Err(Error::TimedOut) => unit_decode(enc, w) == Unit::Partial,
        Err(Error::Device(_)) => unit_decode(enc, w) == Unit::Partial,
        Err(_) => false,
    }
}

impl<D: SerialDevice> Receiver<D> {
    /// Every byte sent so far.
    pub closed spec fn sent(self) -> Seq<u8> {
        self.dev.sent()
    }

    /// Every byte received so far.
    pub closed spec fn received(self) -> Seq<u8> {
        self.dev.received()
    }

    /// What every read so far has come to, oldest first: the byte that it
    /// brought, or `None` for a read that timed out.
    pub closed spec fn events(self) -> Seq<Option<u8>> {
        self.dev.events()
    }

    /// How long each of the reads in `events` was to wait at most, as
    /// seconds and nanoseconds.
    pub closed spec fn waits(self) -> Seq<(nat, nat)> {
        self.dev.waits()
    }

    /// Everything that went over the line, in the order in which it
    /// happened: each byte sent and each read made.
    pub closed spec fn history(self) -> Seq<Action> {
        self.dev.history()
    }

    /// What went over the line since `before`.
    pub open spec fn history_since(self, before: Self) -> Seq<Action> {
        self.history().skip(before.history().len() as int)
    }

    /// Every call at which the line has failed, oldest first.
    pub closed spec fn faults(self) -> Seq<Fault<D::Error>> {
        self.dev.faults()
    }

    /// Whether the line has failed since `before` only as `r` tells: not
    /// at all, or, if `r` holds an error of the line, once, with that
    /// error, in the last call that was made of the line.
    pub open spec fn failed_as<T>(self, before: Self, r: Result<T, Error<D::Error>>) -> bool {
        match r {
            Err(Error::Device(e)) => one_fault_more(
                before.faults(),
                self.faults(),
                self.history().len(),
                self.sent().len(),
                e,
            ),
            _ => self.faults() == before.faults(),
        }
    }

    /// How many reads were asked of the line since `before`: those that
    /// came back and the one, if any, at which the line failed.
    pub open spec fn reads_asked(self, before: Self) -> int {
        self.events().len() - before.events().len() + (if self.faults().len()
            > before.faults().len() && self.faults().last().tried is Read {
            1int
        } else {
            0int
        })
    }

    /// Whether every read asked of the line since `before` has used up
    /// one of the reads that were left, as far as they went.
    pub open spec fn reads_counted(self, before: Self) -> bool {
        self.reads_left() == reads_after(before.reads_left(), self.reads_asked(before))
    }

    /// Whether the line has failed since `before` only as `r` tells, at
    /// a read that was to wait `wait`, and the reads are counted.
    pub open spec fn read_as<T>(
        self,
        before: Self,
        wait: (nat, nat),
        r: Result<T, Error<D::Error>>,
    ) -> bool {
        &&& self.failed_as(before, r)
        &&& self.reads_counted(before)
        &&& (r matches Err(Error::Device(_))) ==> self.faults().last().tried == Attempt::Read(wait)
    }

    /// The bytes sent since `before`.
    pub open spec fn sent_since(self, before: Self) -> Seq<u8> {
        self.sent().skip(before.sent().len() as int)
    }

    /// The reads made since `before`.
    pub open spec fn events_since(self, before: Self) -> Seq<Option<u8>> {
        self.events().skip(before.events().len() as int)
    }

    /// The waits of the reads made since `before`.
    pub open spec fn waits_since(self, before: Self) -> Seq<(nat, nat)> {
        self.waits().skip(before.waits().len() as int)
    }

    /// Every read since `before` was to wait `wait` at most.
    pub open spec fn waited_since(self, before: Self, wait: (nat, nat)) -> bool {
        &&& before.events().len() <= self.events().len()
        &&& self.waits() == before.waits() + Seq::new(
            (self.events().len() - before.events().len()) as nat,
            |i: int| wait,
        )
    }

    /// How many more times the line may be read.
    pub closed spec fn reads_left(self) -> nat {
        self.dev.reads_left()
    }

    /// How many frame checks have failed so far, up to `u64::MAX`.
    pub closed spec fn crc_errors(self) -> nat {
        self.crc_errors as nat
    }

    /// How many bytes of line ends behind hexadecimal headers were not
    /// what a line end holds, up to `u64::MAX`.
    pub closed spec fn line_end_errors(self) -> nat {
        self.line_end_errors as nat
    }

    /// The count of faulty line-end bytes does not go beyond `u64::MAX`.
    pub proof fn lemma_line_end_errors_bounded(self)
        ensures
            self.line_end_errors() <= u64::MAX,
    {
    }

    /// The bytes received since `before`.
    pub open spec fn heard_since(self, before: Self) -> Seq<u8> {
        self.received().skip(before.received().len() as int)
    }

    /// Since `before` nothing was received and no read was used; bytes may
    /// have been sent.
    pub open spec fn only_sent_since(self, before: Self) -> bool {
        &&& self.received() == before.received()
        &&& self.events() == before.events()
        &&& self.waits() == before.waits()
        &&& self.reads_left() == before.reads_left()
        &&& self.crc_errors() == before.crc_errors()
        &&& self.line_end_errors() == before.line_end_errors()
        &&& self.sent() == before.sent() + self.sent_since(before)
        &&& self.history() == before.history() + as_sends(self.sent_since(before))
    }

    /// Whether `r` is what sending `text` comes to: nothing but bytes of
    /// `text` went out, from its first on, in order; all of them if all
    /// was well, and fewer if the line failed. A failure of the line ends
    /// the sending: it is on record as the last call made of the line,
    /// for the byte of `text` that did not go out, and its error is the
    /// one that `r` holds.
    pub open spec fn sent_result<T>(
        self,
        before: Self,
        text: Seq<u8>,
        r: Result<T, Error<D::Error>>,
    ) -> bool {
        &&& self.only_sent_since(before)
        &&& self.sent_since(before).is_prefix_of(text)
        &&& self.failed_as(before, r)
        &&& (r matches Err(Error::Device(_))) ==> self.faults().last().tried == Attempt::Send(
            text[self.sent_since(before).len() as int],
        )
        &&& match r {
            Ok(_) => self.sent_since(before) == text,
            Err(Error::Device(_)) => self.sent_since(before).len() < text.len(),
            Err(_) => false,
        }
    }

    /// Sending `piece` behind `done`, of a text that goes on with `rest`:
    /// if all of `piece` went out, `done + piece` has been sent; if the
    /// line failed, less than the whole text has.
    pub proof fn lemma_sent_piece(
        self,
        mid: Self,
        before: Self,
        done: Seq<u8>,
        piece: Seq<u8>,
        rest: Seq<u8>,
        r: Result<(), Error<D::Error>>,
    )
        requires
            mid.sent_result(before, done, Ok::<(), Error<D::Error>>(())),
            self.sent_result(mid, piece, r),
        ensures
            r is Ok ==> self.sent_result(before, done + piece, r),
            r is Err ==> self.sent_result(before, done + piece + rest, r),
            self.sent_since(before) == done + self.sent_since(mid),
    {
        let a = before.sent();
        let part = self.sent_since(mid);
        assert(self.sent() =~= a + (done + part));
        assert((a + (done + part)).skip(a.len() as int) =~= done + part);
        lemma_sends_concat(done, part);
        assert(before.history() + as_sends(done) + as_sends(part) =~= before.history() + (
        as_sends(done) + as_sends(part)));
        assert((done + part).is_prefix_of(done + piece));
        assert((done + part).is_prefix_of(done + piece + rest));
    }

    /// Nothing was sent since now.
    pub proof fn lemma_sent_nothing(self)
        ensures
            self.only_sent_since(self),
            self.sent_since(self) == Seq::<u8>::empty(),
            self.sent_result(self, Seq::<u8>::empty(), Ok::<(), Error<D::Error>>(())),
    {
        let none = Seq::<u8>::empty();
        assert(self.sent().skip(self.sent().len() as int) =~= none);
        assert(self.sent() =~= self.sent() + none);
        assert(self.history() =~= self.history() + as_sends(none));
        assert(none.is_prefix_of(none));
    }

    /// The reads since `before` are those that brought
    /// `heard_since(before)`, and after them, if `timed_out` is set, one
    /// that timed out.
    pub open spec fn logged_since(self, before: Self, timed_out: bool) -> bool {
        let reads = as_events(self.heard_since(before)) + (if timed_out {
            seq![None::<u8>]
        } else {
            Seq::<Option<u8>>::empty()
        });
        &&& self.events() == before.events() + reads
        &&& self.history() == before.history() + as_reads(reads)
    }

    /// Since `before` nothing was sent; the bytes `heard_since(before)`
    /// were received, at the cost of one read each at least.
    pub open spec fn only_heard_since(self, before: Self) -> bool {
        &&& self.sent() == before.sent()
        &&& self.received() == before.received() + self.heard_since(before)
        &&& self.reads_left() + self.heard_since(before).len() <= before.reads_left()
    }

    /// Since `before` the line was read at least once, a read was used up
    /// if one was left, and nothing else happened.
    pub open spec fn only_read_since(self, before: Self) -> bool {
        &&& self.only_heard_since(before)
        &&& self.crc_errors() == before.crc_errors()
        &&& self.line_end_errors() == before.line_end_errors()
        &&& before.reads_left() > 0 ==> self.reads_left() < before.reads_left()
    }

    /// This receiver is `before` at a later time: the line's history has
    /// only grown, and no read has come back.
    pub open spec fn later_than(self, before: Self) -> bool {
        &&& before.sent().is_prefix_of(self.sent())
        &&& before.received().is_prefix_of(self.received())
        &&& self.reads_left() <= before.reads_left()
    }

    /// What was heard since `before` is what was heard up to `mid` and
    /// then what was heard since `mid`.
    pub proof fn lemma_heard_chain(self, mid: Self, before: Self)
        requires
            mid.only_heard_since(before),
            mid.logged_since(before, false),
            self.only_heard_since(mid),
        ensures
            self.only_heard_since(before),
            self.heard_since(before) == mid.heard_since(before) + self.heard_since(mid),
            self.logged_since(mid, false) ==> self.logged_since(before, false),
            self.logged_since(mid, true) ==> self.logged_since(before, true),
    {
        let a = before.received();
        let u = mid.heard_since(before);
        let v = self.heard_since(mid);
        assert(self.received() =~= a + (u + v));
        assert((a + (u + v)).skip(a.len() as int) =~= u + v);
        lemma_events_concat(u, v);
        let e = before.events();
        let h = before.history();
        let none = Seq::<Option<u8>>::empty();
        let hush = seq![None::<u8>];
        assert(as_events(u) + none =~= as_events(u));
        assert(e + as_events(u) + (as_events(v) + none) =~= e + ((as_events(u) + as_events(v))
            + none));
        assert(e + as_events(u) + (as_events(v) + hush) =~= e + ((as_events(u) + as_events(v))
            + hush));
        lemma_reads_concat(as_events(u), as_events(v) + none);
        lemma_reads_concat(as_events(u), as_events(v) + hush);
        assert(as_events(u) + (as_events(v) + none) =~= (as_events(u) + as_events(v)) + none);
        assert(as_events(u) + (as_events(v) + hush) =~= (as_events(u) + as_events(v)) + hush);
        assert(h + as_reads(as_events(u)) + as_reads(as_events(v) + none) =~= h + (as_reads(
            as_events(u),
        ) + as_reads(as_events(v) + none)));
        assert(h + as_reads(as_events(u)) + as_reads(as_events(v) + hush) =~= h + (as_reads(
            as_events(u),
        ) + as_reads(as_events(v) + hush)));
    }

    /// If every read up to `mid` and every read since was to wait
    /// `wait`, every read was.
    pub proof fn lemma_waited_chain(self, mid: Self, before: Self, wait: (nat, nat))
        requires
            mid.waited_since(before, wait),
            self.waited_since(mid, wait),
        ensures
            self.waited_since(before, wait),
    {
        let n1 = (mid.events().len() - before.events().len()) as nat;
        let n2 = (self.events().len() - mid.events().len()) as nat;
        assert(before.waits() + Seq::new(n1, |i: int| wait) + Seq::new(n2, |i: int| wait)
            =~= before.waits() + Seq::new(n1 + n2, |i: int| wait));
    }

    /// If the line did not fail up to `mid`, it has failed since `before`
    /// as it has since `mid`, and the reads asked of it are those up to
    /// `mid` and those since.
    pub proof fn lemma_read_chain<T>(
        self,
        mid: Self,
        before: Self,
        wait: (nat, nat),
        r: Result<T, Error<D::Error>>,
    )
        requires
            mid.read_as(before, wait, Ok::<(), Error<D::Error>>(())),
            self.read_as(mid, wait, r),
            before.events().len() <= mid.events().len() <= self.events().len(),
        ensures
            self.read_as(before, wait, r),
    {
    }

    /// As `lemma_read_chain`, where the reads up to `mid` were to wait
    /// another time than those since.
    pub proof fn lemma_read_joined<T>(
        self,
        mid: Self,
        before: Self,
        first: (nat, nat),
        wait: (nat, nat),
        r: Result<T, Error<D::Error>>,
    )
        requires
            mid.read_as(before, first, Ok::<(), Error<D::Error>>(())),
            self.read_as(mid, wait, r),
            before.events().len() <= mid.events().len() <= self.events().len(),
        ensures
            self.read_as(before, wait, r),
    {
    }

    /// No read was made since now.
    pub proof fn lemma_waited_nothing(self, wait: (nat, nat))
        ensures
            self.waited_since(self, wait),
            self.read_as(self, wait, Ok::<(), Error<D::Error>>(())),
    {
        assert(self.waits() =~= self.waits() + Seq::new(0, |i: int| wait));
    }

    /// Nothing was heard since now.
    pub proof fn lemma_heard_nothing(self)
        ensures
            self.only_heard_since(self),
            self.logged_since(self, false),
            self.heard_since(self) == Seq::<u8>::empty(),
    {
        let w = Seq::<u8>::empty();
        assert(self.received() =~= self.received() + w);
        assert(self.received().skip(self.received().len() as int) =~= w);
        let reads = as_events(w) + Seq::<Option<u8>>::empty();
        assert(self.events() =~= self.events() + reads);
        assert(self.history() =~= self.history() + as_reads(reads));
    }

    /// If the bytes received are those before and then `w`, `w` is what
    /// was heard.
    pub proof fn lemma_heard_is(self, before: Self, w: Seq<u8>)
        requires
            self.received() == before.received() + w,
        ensures
            self.heard_since(before) == w,
    {
        assert((before.received() + w).skip(before.received().len() as int) =~= w);
    }

    /// A receiver on `dev` that may read the line `READ_LIMIT` times.
    pub fn new(dev: D) -> (r: Receiver<D>)
        ensures
            r.sent() == Seq::<u8>::empty(),
            r.received() == Seq::<u8>::empty(),
            r.events() == Seq::<Option<u8>>::empty(),
            r.waits() == Seq::<(nat, nat)>::empty(),
            r.history() == Seq::<Action>::empty(),
            r.faults() == Seq::<Fault<D::Error>>::empty(),
            r.reads_left() == READ_LIMIT,
            r.crc_errors() == 0,
            r.line_end_errors() == 0,
    {
        Receiver { dev: Device::new(dev, READ_LIMIT), crc_errors: 0, line_end_errors: 0 }
    }

    /// A receiver on `dev` that may read the line `read_limit` times.
    pub fn with_read_limit(dev: D, read_limit: u64) -> (r: Receiver<D>)
        ensures
            r.sent() == Seq::<u8>::empty(),
            r.received() == Seq::<u8>::empty(),
            r.events() == Seq::<Option<u8>>::empty(),
            r.waits() == Seq::<(nat, nat)>::empty(),
            r.history() == Seq::<Action>::empty(),
            r.faults() == Seq::<Fault<D::Error>>::empty(),
            r.reads_left() == read_limit,
            r.crc_errors() == 0,
            r.line_end_errors() == 0,
    {
        Receiver { dev: Device::new(dev, read_limit), crc_errors: 0, line_end_errors: 0 }
    }

    /// Sends `byte` as it is.
    fn send_raw(&mut self, byte: u8) -> (r: Result<(), Error<D::Error>>)
        ensures
            final(self).sent_result(*old(self), seq![byte], r),
    {
        let r = self.dev.send(byte);
        proof {
            let a = old(self).sent();
            let none = Seq::<u8>::empty();
            assert((a + seq![byte]).skip(a.len() as int) =~= seq![byte]);
            assert(a.push(byte) =~= a + seq![byte]);
            assert(a.skip(a.len() as int) =~= none);
            assert(a =~= a + none);
            assert(old(self).history().push(Action::Sent(byte)) =~= old(self).history()
                + as_sends(seq![byte]));
            assert(old(self).history() =~= old(self).history() + as_sends(none));
            assert(seq![byte].is_prefix_of(seq![byte]));
            assert(none.is_prefix_of(seq![byte]));
        }
        r
    }

    /// Sends `byte` as two hexadecimal digits.
    pub fn send_hex(&mut self, byte: u8) -> (r: Result<(), Error<D::Error>>)
        ensures
            final(self).sent_result(*old(self), hex_encode(byte), r),
    {
        let bytes = to_hex(byte);
        let ghost none = Seq::<u8>::empty();
        let ghost first = seq![bytes@[0]];
        let ghost second = seq![bytes@[1]];
        proof {
            self.lemma_sent_nothing();
            assert(hex_encode(byte) =~= first + second);
            assert(none + first =~= first);
        }
        let r = self.send_raw(bytes[0]);
        proof {
            self.lemma_sent_piece(*old(self), *old(self), none, first, second, r);
        }
        match r {
            Ok(()) => {},
            Err(e) => {
                return Err(e);
            },
        }
        let ghost mid = *self;
        let r = self.send_raw(bytes[1]);
        proof {
            self.lemma_sent_piece(mid, *old(self), first, second, none, r);
            assert(first + second + none =~= first + second);
        }
        r
    }

    /// Sends `byte`, as two hexadecimal digits if `hex` is set and as it
    /// is otherwise.
    pub fn send(&mut self, byte: u8, hex: bool) -> (r: Result<(), Error<D::Error>>)
        ensures
            final(self).sent_result(*old(self), field_text(hex, seq![byte]), r),
    {
        proof {
            assert(seq![byte].drop_last() =~= Seq::<u8>::empty());
            assert(hex_text(Seq::<u8>::empty()) + hex_encode(byte) =~= hex_encode(byte));
        }
        if hex {
            self.send_hex(byte)
        } else {
            self.send_raw(byte)
        }
    }

    /// Sends each byte of `bytes` in turn, as two hexadecimal digits if
    /// `hex` is set and as it is otherwise.
    fn send_all(&mut self, bytes: &[u8], hex: bool) -> (r: Result<(), Error<D::Error>>)
        ensures
            final(self).sent_result(*old(self), field_text(hex, bytes@), r),
    {
        let mut i: usize = 0;
        proof {
            self.lemma_sent_nothing();
            assert(bytes@.take(0) =~= Seq::<u8>::empty());
        }
        while i < bytes.len()
            invariant
                i <= bytes.len(),
                self.sent_result(
                    *old(self),
                    field_text(hex, bytes@.take(i as int)),
                    Ok::<(), Error<D::Error>>(()),
                ),
            decreases bytes.len() - i,
        {
            let ghost mid = *self;
            let ghost head = bytes@.take(i as int);
            let ghost one = seq![bytes@[i as int]];
            let ghost tail = bytes@.skip(i + 1);
            let r = self.send(bytes[i], hex);
            proof {
                assert(head + one =~= bytes@.take(i + 1));
                assert(head + one + tail =~= bytes@);
                lemma_hex_text_concat(head, one);
                lemma_hex_text_concat(head + one, tail);
                self.lemma_sent_piece(
                    mid,
                    *old(self),
                    field_text(hex, head),
                    field_text(hex, one),
                    field_text(hex, tail),
                    r,
                );
            }
            match r {
                Ok(()) => {},
                Err(e) => {
                    return Err(e);
                },
            }
            i += 1;
        }
        proof {
            assert(bytes@.take(i as int) =~= bytes@);
        }
        Ok(())
    }

    /// Sends the frame that carries `frame`. If the line fails, nothing
    /// is sent after the byte that it did not take, and the error is the
    /// line's.
    pub fn send_frame(&mut self, frame: FrameHeader) -> (r: Result<(), Error<D::Error>>)
        ensures
            final(self).sent_result(*old(self), frame_wire(frame), r),
    {
        let hex = frame.encoding.0 == ZHEX;
        let body = frame.to_checked_bytes();
        let crc = u16_to_be(crc16(body.as_slice(), None));
        proof {
            assert(LF | 0x80 == 0x8a) by (bit_vector)
                requires
                    LF == 0x0a,
            ;
        }
        let sync = [ZPAD, ZPAD, ZDLE, frame.encoding.0];
        let end = [CR, LF | 0x80, XON];
        let ghost none = Seq::<u8>::empty();
        let ghost t1 = field_text(false, sync@);
        let ghost t2 = field_text(hex, body@);
        let ghost t3 = field_text(hex, crc@);
        let ghost t4 = field_text(false, end@);
        proof {
            self.lemma_sent_nothing();
            assert(sync@ =~= seq![ZPAD, ZPAD, ZDLE, frame.encoding.0]);
            assert(end@ =~= seq![CR, 0x8au8, XON]);
            assert(frame_wire(frame) =~= t1 + t2 + t3 + t4);
            assert(none + t1 =~= t1);
            assert(t1 + (t2 + t3 + t4) =~= t1 + t2 + t3 + t4);
            assert(t1 + t2 + (t3 + t4) =~= t1 + t2 + t3 + t4);
        }
        let r = self.send_all(sync.as_slice(), false);
        proof {
            self.lemma_sent_piece(*old(self), *old(self), none, t1, t2 + t3 + t4, r);
        }
        match r {
            Ok(()) => {},
            Err(e) => {
                return Err(e);
            },
        }
        let ghost m1 = *self;
        let r = self.send_all(body.as_slice(), hex);
        proof {
            self.lemma_sent_piece(m1, *old(self), t1, t2, t3 + t4, r);
        }
        match r {
            Ok(()) => {},
            Err(e) => {
                return Err(e);
            },
        }
        let ghost m2 = *self;
        let r = self.send_all(crc.as_slice(), hex);
        proof {
            self.lemma_sent_piece(m2, *old(self), t1 + t2, t3, t4, r);
        }
        match r {
            Ok(()) => {},
            Err(e) => {
                return Err(e);
            },
        }
        let ghost m3 = *self;
        let r = self.send_all(end.as_slice(), false);
        proof {
            self.lemma_sent_piece(m3, *old(self), t1 + t2 + t3, t4, none, r);
            assert(t1 + t2 + t3 + t4 + none =~= t1 + t2 + t3 + t4);
        }
        r
    }

    /// How many more times the line may be read.
    pub fn remaining_reads(&self) -> (n: u64)
        ensures
            n == self.reads_left(),
    {
        self.dev.remaining_reads()
    }

    /// How many frame checks have failed so far.
    pub fn crc_error_count(&self) -> (n: u64)
        ensures
            n == self.crc_errors(),
    {
        self.crc_errors
    }

    /// How many bytes of line ends behind hexadecimal headers were not
    /// what a line end holds: carriage return, line feed, `XON`.
    pub fn line_end_error_count(&self) -> (n: u64)
        ensures
            n == self.line_end_errors(),
    {
        self.line_end_errors
    }

    /// Receives one byte as it is.
    pub fn recv_raw(&mut self, timeout: Duration) -> (r: Result<u8, Error<D::Error>>)
        ensures
            final(self).only_read_since(*old(self)),
            final(self).logged_since(*old(self), r matches Err(Error::TimedOut)),
            final(self).waited_since(*old(self), timeout.as_pair()),
            final(self).read_as(*old(self), timeout.as_pair(), r),
            unit_result(RecvEnc::Raw, final(self).heard_since(*old(self)), r),
    {
        let r = self.dev.recv(timeout);
        proof {
            let e = old(self).events();
            let h = old(self).history();
            let none = Seq::<Option<u8>>::empty();
            let nothing = Seq::<u8>::empty();
            match r {
                Ok(b) => {
                    let reads = as_events(seq![b]) + none;
                    assert(old(self).received().push(b) =~= old(self).received() + seq![b]);
                    self.lemma_heard_is(*old(self), seq![b]);
                    assert(e.push(Some(b)) =~= e + reads);
                    assert(h.push(Action::Read(Some(b))) =~= h + as_reads(reads));
                    assert(old(self).waits().push(timeout.as_pair()) =~= old(self).waits()
                        + Seq::new(1, |i: int| timeout.as_pair()));
                },
                Err(_) => {
                    let hushed = as_events(nothing) + seq![None::<u8>];
                    let quiet = as_events(nothing) + none;
                    assert(old(self).received() =~= old(self).received() + nothing);
                    self.lemma_heard_is(*old(self), nothing);
                    assert(e.push(None) =~= e + hushed);
                    assert(h.push(Action::Read(None)) =~= h + as_reads(hushed));
                    assert(e =~= e + quiet);
                    assert(h =~= h + as_reads(quiet));
                    assert(old(self).waits().push(timeout.as_pair()) =~= old(self).waits()
                        + Seq::new(1, |i: int| timeout.as_pair()));
                    assert(old(self).waits() =~= old(self).waits() + Seq::new(
                        0,
                        |i: int| timeout.as_pair(),
                    ));
                },
            }
        }
        r
    }

    /// Receives one byte, undoing a `ZDLE` escape. A `ZDLE` followed by a
    /// byte that stands for no data byte is `InvalidEscape`.
    #[verifier::rlimit(60)]
    pub fn recv_esc(&mut self, timeout: Duration) -> (r: Result<u8, Error<D::Error>>)
        ensures
            final(self).only_read_since(*old(self)),
            final(self).logged_since(*old(self), r matches Err(Error::TimedOut)),
            final(self).waited_since(*old(self), timeout.as_pair()),
            final(self).read_as(*old(self), timeout.as_pair(), r),
            unit_result(RecvEnc::Esc, final(self).heard_since(*old(self)), r),
    {
        let first = match self.recv_raw(timeout) {
            Ok(b) => b,
            Err(e) => {
                return Err(e);
            },
        };
        if first != ZDLE {
            return Ok(first);
        }
        let ghost mid = *self;
        proof {
            assert(mid.heard_since(*old(self)) =~= seq![first]);
        }
        let r = self.recv_raw(timeout);
        proof {
            self.lemma_heard_chain(mid, *old(self));
            self.lemma_waited_chain(mid, *old(self), timeout.as_pair());
            self.lemma_read_chain(mid, *old(self), timeout.as_pair(), r);
        }
        let second = match r {
            Ok(b) => b,
            Err(e) => {
                proof {
                    assert(self.heard_since(*old(self)) =~= seq![first]);
                }
                return Err(e);
            },
        };
        proof {
            assert(self.heard_since(mid) =~= seq![second]);
            assert(self.heard_since(*old(self)) =~= seq![first, second]);
        }
        match unescape(second) {
            Escape::Literal(v) => Ok(v),
            Escape::Marker(x) => Err(Error::InvalidEscape(x)),
            Escape::Invalid(x) => Err(Error::InvalidEscape(x)),
        }
    }

    /// Receives one byte spelled as two hexadecimal digits. The top bit of
    /// each digit is ignored.
    #[verifier::rlimit(60)]
    pub fn recv_hex(&mut self, timeout: Duration) -> (r: Result<u8, Error<D::Error>>)
        ensures
            final(self).only_read_since(*old(self)),
            final(self).logged_since(*old(self), r matches Err(Error::TimedOut)),
            final(self).waited_since(*old(self), timeout.as_pair()),
            final(self).read_as(*old(self), timeout.as_pair(), r),
            unit_result(RecvEnc::Hex, final(self).heard_since(*old(self)), r),
    {
        let first = match self.recv_raw(timeout) {
            Ok(b) => b,
            Err(e) => {
                return Err(e);
            },
        };
        let ghost mid = *self;
        proof {
            assert(mid.heard_since(*old(self)) =~= seq![first]);
        }
        let r = self.recv_raw(timeout);
        proof {
            self.lemma_heard_chain(mid, *old(self));
            self.lemma_waited_chain(mid, *old(self), timeout.as_pair());
            self.lemma_read_chain(mid, *old(self), timeout.as_pair(), r);
        }
        let second = match r {
            Ok(b) => b,
            Err(e) => {
                proof {
                    assert(self.heard_since(*old(self)) =~= seq![first]);
                }
                return Err(e);
            },
        };
        proof {
            assert(self.heard_since(mid) =~= seq![second]);
            assert(self.heard_since(*old(self)) =~= seq![first, second]);
        }
        match from_hex([first & 0x7f, second & 0x7f]) {
            Ok(v) => Ok(v),
            Err(FromHexError(x)) => Err(Error::InvalidHex(x)),
        }
    }

    /// Receives one byte, read as `enc` says.
    pub fn recv_byte(&mut self, enc: RecvEnc, timeout: Duration) -> (r: Result<
        u8,
        Error<D::Error>,
    >)
        ensures
            final(self).only_read_since(*old(self)),
            final(self).logged_since(*old(self), r matches Err(Error::TimedOut)),
            final(self).waited_since(*old(self), timeout.as_pair()),
            final(self).read_as(*old(self), timeout.as_pair(), r),
            unit_result(enc, final(self).heard_since(*old(self)), r),
    {
        match enc {
            RecvEnc::Hex => self.recv_hex(timeout),
            RecvEnc::Esc => self.recv_esc(timeout),
            RecvEnc::Raw => self.recv_raw(timeout),
        }
    }
    /// Receives `N` bytes, each read as `enc` says.
    #[verifier::rlimit(60)]
    pub fn recv<const N: usize>(&mut self, enc: RecvEnc, timeout: Duration) -> (r: Result<
        [u8; N],
        Error<D::Error>,
    >)
        ensures
            final(self).only_heard_since(*old(self)),
            final(self).logged_since(*old(self), r matches Err(Error::TimedOut)),
            final(self).waited_since(*old(self), timeout.as_pair()),
            final(self).read_as(*old(self), timeout.as_pair(), r),
            final(self).crc_errors() == old(self).crc_errors(),
            final(self).line_end_errors() == old(self).line_end_errors(),
            N > 0 && old(self).reads_left() > 0 ==> final(self).reads_left() < old(self).reads_left(),
            fields_result(enc, final(self).heard_since(*old(self)), r),
    {
        let mut buf = [0u8; N];
        let mut i: usize = 0;
        proof {
            self.lemma_heard_nothing();
            self.lemma_waited_nothing(timeout.as_pair());
            assert(buf@.take(0) =~= Seq::<u8>::empty());
        }
        while i < N
            invariant
                i <= N,
                self.only_heard_since(*old(self)),
                self.logged_since(*old(self), false),
                self.waited_since(*old(self), timeout.as_pair()),
                self.read_as(*old(self), timeout.as_pair(), Ok::<(), Error<D::Error>>(())),
                self.crc_errors() == old(self).crc_errors(),
                self.line_end_errors() == old(self).line_end_errors(),
                i > 0 && old(self).reads_left() > 0 ==> self.reads_left() < old(self).reads_left(),
                fields_run(enc, N as nat, self.heard_since(*old(self))) == (Fields::Reading {
                    values: buf@.take(i as int),
                    partial: Seq::empty(),
                }),
            decreases N - i,
        {
            let ghost mid = *self;
            let r = self.recv_byte(enc, timeout);
            proof {
                self.lemma_heard_chain(mid, *old(self));
                self.lemma_waited_chain(mid, *old(self), timeout.as_pair());
                self.lemma_read_chain(mid, *old(self), timeout.as_pair(), r);
                lemma_fields_unit(
                    enc,
                    N as nat,
                    mid.heard_since(*old(self)),
                    self.heard_since(mid),
                );
            }
            match r {
                Ok(v) => {
                    let ghost prev = buf@;
                    buf[i] = v;
                    proof {
                        assert(buf@.take(i + 1) =~= prev.take(i as int).push(v));
                    }
                },
                Err(e) => {
                    return Err(e);
                },
            }
            i += 1;
        }
        proof {
            assert(buf@.take(i as int) =~= buf@);
        }
        Ok(buf)
    }
    /// Counts one more failed frame check.
    fn note_crc_error(&mut self)
        ensures
            final(self).sent() == old(self).sent(),
            final(self).received() == old(self).received(),
            final(self).events() == old(self).events(),
            final(self).waits() == old(self).waits(),
            final(self).history() == old(self).history(),
            final(self).faults() == old(self).faults(),
            final(self).reads_left() == old(self).reads_left(),
            final(self).line_end_errors() == old(self).line_end_errors(),
            final(self).crc_errors() == bump(old(self).crc_errors()),
    {
        if self.crc_errors < u64::MAX {
            self.crc_errors = self.crc_errors + 1;
        }
    }

    /// Receives the payload of a data subpacket into `buf`, undoing `ZDLE`
    /// escapes, up to the marker that ends it or until `buf` is full.
    ///
    /// `Some` holds the marker and the number of bytes written to `buf`;
    /// `None` says that `buf` was filled and no marker has come: into an
    /// empty `buf` nothing is read. Whatever the result, `buf` holds the
    /// payload read so far and behind it what it held.
    #[verifier::rlimit(30)]
    pub fn receive_data(&mut self, buf: &mut [u8]) -> (r: Result<
        Option<(u8, usize)>,
        Error<D::Error>,
    >)
        ensures
            final(self).only_heard_since(*old(self)),
            final(self).logged_since(*old(self), r matches Err(Error::TimedOut)),
            final(self).waited_since(*old(self), long_wait()),
            final(self).read_as(*old(self), long_wait(), r),
            final(self).crc_errors() == old(self).crc_errors(),
            final(self).line_end_errors() == old(self).line_end_errors(),
            old(buf)@.len() > 0 && old(self).reads_left() > 0 ==> final(self).reads_left() < old(self).reads_left(),
            old(buf)@.len() == 0 ==> (r matches Ok(None)) && final(self).events() == old(self).events(),
            keeps(final(buf)@, old(buf)@, unwrap_payload(final(self).heard_since(*old(self)))),
            ({
                let state = unwrap_run(final(self).heard_since(*old(self)));
                match r {
                    Ok(Some((marker, len))) => {
                        &&& len < final(buf)@.len()
                        &&& state == (Unwrapped::Closed {
                            payload: final(buf)@.take(len as int),
                            marker,
                        })
                    },
                    Ok(None) => state == (Unwrapped::Open { payload: final(buf)@, pending: false }),
                    Err(Error::InvalidEscape(x)) => {
                        &&& state == (Unwrapped::Invalid { byte: x })
                        &&& final(self).heard_since(*old(self)).len() > 0
                        &&& unwrap_run(
                            final(self).heard_since(*old(self)).drop_last(),
                        ) matches Unwrapped::Open { payload, .. } && payload.len() < final(buf)@.len()
                    },
                    Err(Error::TimedOut) => state matches Unwrapped::Open { payload, .. }
                        && payload.len() < final(buf)@.len(),
                    Err(Error::Device(_)) => state matches Unwrapped::Open { payload, .. }
                        && payload.len() < final(buf)@.len(),
                    Err(_) => false,
                }
            }),
    {
        let timeout = Duration::from_secs(TIMEOUT_SECS);
        let mut i: usize = 0;
        proof {
            self.lemma_heard_nothing();
            self.lemma_waited_nothing(long_wait());
            assert(buf@.take(0) =~= Seq::<u8>::empty());
            assert(buf@.skip(0) =~= old(buf)@.skip(0));
        }
        while i < buf.len()
            invariant
                i <= buf@.len(),
                buf@.len() == old(buf)@.len(),
                self.only_heard_since(*old(self)),
                self.logged_since(*old(self), false),
                self.waited_since(*old(self), long_wait()),
                self.read_as(*old(self), long_wait(), Ok::<(), Error<D::Error>>(())),
                timeout.as_pair() == long_wait(),
                self.crc_errors() == old(self).crc_errors(),
                self.line_end_errors() == old(self).line_end_errors(),
                i > 0 && old(self).reads_left() > 0 ==> self.reads_left() < old(self).reads_left(),
                unwrap_run(self.heard_since(*old(self))) == (Unwrapped::Open {
                    payload: buf@.take(i as int),
                    pending: false,
                }),
                forall|k: int| i <= k < buf@.len() ==> buf@[k] == old(buf)@[k],
            decreases buf@.len() - i,
        {
            let ghost start = *self;
            let ghost heard = self.heard_since(*old(self));
            let r = self.recv_raw(timeout);
            proof {
                self.lemma_heard_chain(start, *old(self));
                self.lemma_waited_chain(start, *old(self), long_wait());
                self.lemma_read_chain(start, *old(self), long_wait(), r);
            }
            proof {
                assert(buf@.skip(i as int) =~= old(buf)@.skip(i as int));
            }
            let first = match r {
                Ok(b) => b,
                Err(e) => {
                    proof {
                        assert(heard + self.heard_since(start) =~= heard);
                    }
                    return Err(e);
                },
            };
            proof {
                assert(self.heard_since(start) =~= seq![first]);
                lemma_unwrap_push(heard, first);
            }
            let byte = if first == ZDLE {
                let ghost mid = *self;
                let r = self.recv_raw(timeout);
                proof {
                    self.lemma_heard_chain(mid, *old(self));
                    self.lemma_waited_chain(mid, *old(self), long_wait());
                    self.lemma_read_chain(mid, *old(self), long_wait(), r);
                }
                let second = match r {
                    Ok(b) => b,
                    Err(e) => {
                        proof {
                            assert(self.heard_since(*old(self)) =~= heard + seq![first]);
                        }
                        return Err(e);
                    },
                };
                proof {
                    assert(self.heard_since(mid) =~= seq![second]);
                    lemma_unwrap_push(heard + seq![first], second);
                }
                match unescape(second) {
                    Escape::Literal(v) => v,
                    Escape::Marker(marker) => {
                        proof {
                            assert(buf@.skip(i as int) =~= old(buf)@.skip(i as int));
                        }
                        return Ok(Some((marker, i)));
                    },
                    Escape::Invalid(x) => {
                        proof {
                            assert(self.heard_since(*old(self)).drop_last() =~= heard
                                + seq![first]);
                        }
                        return Err(Error::InvalidEscape(x));
                    },
                }
            } else {
                first
            };
            let ghost prev = buf@;
            buf[i] = byte;
            proof {
                assert(buf@.take(i + 1) =~= prev.take(i as int).push(byte));
            }
            i += 1;
        }
        proof {
            assert(buf@.take(i as int) =~= buf@);
            assert(buf@.skip(i as int) =~= old(buf)@.skip(i as int));
        }
        Ok(None)
    }

    /// Receives the end of a subpacket whose payload has filled the
    /// buffer: a `ZDLE` and a marker. Anything that would be one more byte
    /// of payload is `Overflow`.
    #[verifier::rlimit(60)]
    fn receive_marker(&mut self) -> (r: Result<u8, Error<D::Error>>)
        ensures
            final(self).only_read_since(*old(self)),
            final(self).logged_since(*old(self), r matches Err(Error::TimedOut)),
            final(self).waited_since(*old(self), long_wait()),
            final(self).read_as(*old(self), long_wait(), r),
            ({
                let w = final(self).heard_since(*old(self));
                match r {
                    Ok(m) => w == seq![ZDLE, m] && escape_meaning(m) == Escape::Marker(m),
                    Err(Error::Overflow) => (w.len() == 1 && w[0] != ZDLE) || (w.len() == 2 && w
                        == seq![ZDLE, w[1]] && escape_meaning(w[1]) is Literal),
                    Err(Error::InvalidEscape(x)) => w == seq![ZDLE, x] && escape_meaning(x)
                        == Escape::Invalid(x),
                    Err(Error::TimedOut) => w.len() == 0 || w == seq![ZDLE],
                    Err(Error::Device(_)) => w.len() == 0 || w == seq![ZDLE],
                    Err(_) => false,
                }
            }),
    {
        let timeout = Duration::from_secs(TIMEOUT_SECS);
        let first = match self.recv_raw(timeout) {
            Ok(b) => b,
            Err(e) => {
                return Err(e);
            },
        };
        let ghost mid = *self;
        proof {
            assert(mid.heard_since(*old(self)) =~= seq![first]);
        }
        if first != ZDLE {
            return Err(Error::Overflow);
        }
        let r = self.recv_raw(timeout);
        proof {
            self.lemma_heard_chain(mid, *old(self));
            self.lemma_waited_chain(mid, *old(self), long_wait());
            self.lemma_read_chain(mid, *old(self), long_wait(), r);
        }
        let second = match r {
            Ok(b) => b,
            Err(e) => {
                proof {
                    assert(self.heard_since(*old(self)) =~= seq![ZDLE]);
                }
                return Err(e);
            },
        };
        proof {
            assert(self.heard_since(mid) =~= seq![second]);
            assert(self.heard_since(*old(self)) =~= seq![ZDLE, second]);
        }
        match unescape(second) {
            Escape::Marker(m) => Ok(m),
            Escape::Literal(_) => Err(Error::Overflow),
            Escape::Invalid(x) => Err(Error::InvalidEscape(x)),
        }
    }

    /// Receives the payload of a data subpacket into `buf`, as far as
    /// `buf` has room and no further than its first `SUBPACKET_LIMIT`
    /// bytes, and the marker that ends it. Returns the marker and the
    /// length of the payload.
    #[verifier::rlimit(80)]
    fn receive_payload(&mut self, buf: &mut [u8], Ghost(crc_len): Ghost<nat>) -> (r: Result<
        (u8, usize),
        Error<D::Error>,
    >)
        ensures
            final(self).only_heard_since(*old(self)),
            final(self).logged_since(*old(self), r matches Err(Error::TimedOut)),
            final(self).waited_since(*old(self), long_wait()),
            final(self).read_as(*old(self), long_wait(), r),
            final(self).crc_errors() == old(self).crc_errors(),
            final(self).line_end_errors() == old(self).line_end_errors(),
            old(self).reads_left() > 0 ==> final(self).reads_left() < old(self).reads_left(),
            ({
                let w = final(self).heard_since(*old(self));
                let limit = packet_limit(old(buf)@.len());
                let state = packet_run(limit, crc_len, w);
                &&& keeps(final(buf)@, old(buf)@, packet_payload(limit, crc_len, w))
                &&& match r {
                    Ok((marker, len)) => {
                        &&& len <= limit
                        &&& state == (PacketScan::Check {
                            payload: final(buf)@.take(len as int),
                            marker,
                            crc: Seq::empty(),
                            partial: Seq::empty(),
                        })
                    },
                    Err(Error::Overflow) => state is TooLong,
                    Err(Error::InvalidEscape(x)) => state == (PacketScan::BadEscape { byte: x }),
                    Err(Error::TimedOut) => state is Body,
                    Err(Error::Device(_)) => state is Body,
                    Err(_) => false,
                }
            }),
    {
        let room: usize = if buf.len() < SUBPACKET_LIMIT {
            buf.len()
        } else {
            SUBPACKET_LIMIT
        };
        let ghost limit = room as nat;
        let (head, tail) = buf.split_at_mut(room);
        let ghost head_before = head@;
        let ghost behind = tail@;
        let r = self.receive_data(head);
        let ghost filled = head@;
        let ghost body_end = *self;
        let ghost body = self.heard_since(*old(self));
        proof {
            lemma_packet_body(limit, crc_len, body);
            if body.len() > 0 {
                lemma_packet_body(limit, crc_len, body.drop_last());
                assert(body.drop_last() + seq![body.last()] =~= body);
                if unwrap_run(body.drop_last()) matches Unwrapped::Open { payload, .. }
                    && payload.len() <= limit {
                    lemma_packet_push(limit, crc_len, body.drop_last(), body.last());
                }
            }
        }
        let r = match r {
            Ok(Some((marker, len))) => Ok((marker, len)),
            Ok(None) => {
                let r = self.receive_marker();
                proof {
                    self.lemma_heard_chain(body_end, *old(self));
                    self.lemma_waited_chain(body_end, *old(self), long_wait());
                    self.lemma_read_chain(body_end, *old(self), long_wait(), r);
                    let w = self.heard_since(body_end);
                    assert(filled.take(limit as int) =~= filled);
                    if w.len() == 0 {
                        assert(body + w =~= body);
                    } else if w.len() == 1 {
                        assert(w =~= seq![w[0]]);
                        lemma_unwrap_push(body, w[0]);
                        lemma_packet_push(limit, crc_len, body, w[0]);
                        assert((body + w).drop_last() =~= body);
                    } else {
                        assert(w =~= seq![w[0], w[1]]);
                        assert(body + w =~= body + seq![w[0]] + seq![w[1]]);
                        lemma_unwrap_push(body, w[0]);
                        lemma_packet_push(limit, crc_len, body, w[0]);
                        lemma_packet_push(limit, crc_len, body + seq![w[0]], w[1]);
                        lemma_unwrap_push(body + seq![w[0]], w[1]);
                        assert((body + w).drop_last() =~= body + seq![w[0]]);
                    }
                }
                match r {
                    Ok(m) => Ok((m, room)),
                    Err(e) => Err(e),
                }
            },
            Err(e) => Err(e),
        };
        proof {
            let w = self.heard_since(*old(self));
            let payload = packet_payload(limit, crc_len, w);
            assert(payload.len() <= limit);
            assert(filled.take(payload.len() as int) == payload);
            assert(buf@ == filled + behind);
            assert(old(buf)@ =~= head_before + behind);
            assert(buf@.take(payload.len() as int) =~= filled.take(payload.len() as int));
            assert(buf@.skip(payload.len() as int) =~= filled.skip(payload.len() as int) + behind);
            assert(old(buf)@.skip(payload.len() as int) =~= head_before.skip(payload.len() as int)
                + behind);
            match r {
                Ok((_, len)) => {
                    assert(buf@.take(len as int) =~= filled.take(len as int));
                },
                _ => {},
            }
        }
        r
    }

    /// Receives one data subpacket of a frame in `encoding`: the payload
    /// into `buf`, then the marker that ends it, then the frame check.
    /// Returns the marker and the length of the payload.
    ///
    /// The payload may be as long as `buf` and no longer than
    /// `SUBPACKET_LIMIT`; the byte that would make it longer is `Overflow`.
    /// A frame check that is not that of the payload and marker is counted
    /// and the subpacket is handed out all the same. Whatever the result,
    /// `buf` holds the payload read so far and behind it what it held.
    #[verifier::rlimit(60)]
    pub fn receive_data_packet(&mut self, encoding: FrameEncoding, buf: &mut [u8]) -> (r: Result<
        (PacketType, usize),
        Error<D::Error>,
    >)
        ensures
            final(self).only_heard_since(*old(self)),
            final(self).logged_since(*old(self), r matches Err(Error::TimedOut)),
            final(self).waited_since(*old(self), long_wait()),
            final(self).read_as(*old(self), long_wait(), r),
            old(self).reads_left() > 0 ==> final(self).reads_left() < old(self).reads_left(),
            final(buf)@.len() == old(buf)@.len(),
            packet_result(
                encoding,
                final(self).heard_since(*old(self)),
                old(buf)@,
                final(buf)@,
                r,
            ),
            final(self).line_end_errors() == old(self).line_end_errors(),
            final(self).crc_errors() == packet_errors(
                packet_limit(old(buf)@.len()),
                encoding,
                final(self).heard_since(*old(self)),
                old(self).crc_errors(),
            ),
    {
        let ghost crc_len = encoding.crc_len();
        let ghost limit = packet_limit(buf@.len());
        let r = self.receive_payload(buf, Ghost(crc_len));
        let ghost marked = *self;
        let ghost upto = self.heard_since(*old(self));
        let (marker, len) = match r {
            Ok(found) => found,
            Err(e) => {
                return Err(e);
            },
        };
        let r = self.receive_packet_check(encoding, buf, len, marker);
        proof {
            self.lemma_heard_chain(marked, *old(self));
            self.lemma_waited_chain(marked, *old(self), long_wait());
            self.lemma_read_chain(marked, *old(self), long_wait(), r);
            lemma_packet_tail(limit, crc_len, upto, self.heard_since(marked));
        }
        match r {
            Ok(ok) => {
                if !ok {
                    self.note_crc_error();
                }
                Ok((PacketType(marker), len))
            },
            Err(e) => Err(e),
        }
    }

    /// Reads the frame check behind a subpacket of a frame in `encoding`
    /// and tells whether it is that of the first `len` bytes of `buf` and
    /// `marker`.
    #[verifier::rlimit(60)]
    fn receive_packet_check(
        &mut self,
        encoding: FrameEncoding,
        buf: &[u8],
        len: usize,
        marker: u8,
    ) -> (r: Result<bool, Error<D::Error>>)
        requires
            len <= buf@.len(),
        ensures
            final(self).only_heard_since(*old(self)),
            final(self).logged_since(*old(self), r matches Err(Error::TimedOut)),
            final(self).waited_since(*old(self), long_wait()),
            final(self).read_as(*old(self), long_wait(), r),
            final(self).crc_errors() == old(self).crc_errors(),
            final(self).line_end_errors() == old(self).line_end_errors(),
            old(self).reads_left() > 0 ==> final(self).reads_left() < old(self).reads_left(),
            ({
                let state = fields_run(
                    RecvEnc::Esc,
                    encoding.crc_len(),
                    final(self).heard_since(*old(self)),
                );
                match r {
                    Ok(ok) => {
                        &&& state matches Fields::Reading { values, partial }
                        &&& partial.len() == 0
                        &&& values.len() == encoding.crc_len()
                        &&& ok == packet_check_ok(encoding, buf@.take(len as int), marker, values)
                    },
                    Err(Error::InvalidEscape(x)) => state == (Fields::BadEscape { byte: x }),
                    Err(Error::TimedOut) => state matches Fields::Reading { values, .. }
                        && values.len() < encoding.crc_len(),
                    Err(Error::Device(_)) => state matches Fields::Reading { values, .. }
                        && values.len() < encoding.crc_len(),
                    Err(_) => false,
                }
            }),
    {
        let timeout = Duration::from_secs(TIMEOUT_SECS);
        proof {
            assert(buf@.subrange(0, len as int) =~= buf@.take(len as int));
        }
        if encoding.0 == ZBIN32 {
            match self.recv::<4>(RecvEnc::Esc, timeout) {
                Ok(crc) => Ok(u32_from_be(crc) == crc32(&buf[0..len], Some(marker))),
                Err(e) => Err(e),
            }
        } else {
            match self.recv::<2>(RecvEnc::Esc, timeout) {
                Ok(crc) => Ok(u16_from_be(crc) == crc16(&buf[0..len], Some(marker))),
                Err(e) => Err(e),
            }
        }
    }

    /// Reads and drops bytes up to and with the first `ZDLE` that comes
    /// right behind a `ZPAD`.
    #[verifier::rlimit(60)]
    fn hunt(&mut self, timeout: Duration) -> (r: Result<(), Error<D::Error>>)
        ensures
            final(self).only_read_since(*old(self)),
            final(self).logged_since(*old(self), r matches Err(Error::TimedOut)),
            final(self).waited_since(*old(self), timeout.as_pair()),
            final(self).read_as(*old(self), timeout.as_pair(), r),
            match r {
                Ok(()) => header_run(final(self).heard_since(*old(self))) is Encoding,
                Err(Error::TimedOut) => header_run(final(self).heard_since(*old(self))) is Hunting,
                Err(Error::Device(_)) => header_run(final(self).heard_since(*old(self))) is Hunting,
                Err(_) => false,
            },
    {
        let mut after_pad = false;
        let mut synced = false;
        proof {
            self.lemma_heard_nothing();
            self.lemma_waited_nothing(timeout.as_pair());
        }
        while !synced
            invariant
                self.only_heard_since(*old(self)),
                self.logged_since(*old(self), false),
                self.waited_since(*old(self), timeout.as_pair()),
                self.read_as(*old(self), timeout.as_pair(), Ok::<(), Error<D::Error>>(())),
                self.crc_errors() == old(self).crc_errors(),
                self.line_end_errors() == old(self).line_end_errors(),
                self.heard_since(*old(self)).len() > 0 || *self == *old(self),
                header_run(self.heard_since(*old(self))) == (if synced {
                    HeaderScan::Encoding
                } else {
                    HeaderScan::Hunting { after_pad }
                }),
            decreases self.reads_left(),
        {
            let ghost start = *self;
            let ghost heard = self.heard_since(*old(self));
            let r = self.recv_raw(timeout);
            proof {
                self.lemma_heard_chain(start, *old(self));
                self.lemma_waited_chain(start, *old(self), timeout.as_pair());
                self.lemma_read_chain(start, *old(self), timeout.as_pair(), r);
            }
            let b = match r {
                Ok(b) => b,
                Err(e) => {
                    proof {
                        assert(heard + self.heard_since(start) =~= heard);
                    }
                    return Err(e);
                },
            };
            proof {
                assert(self.heard_since(start) =~= seq![b]);
                lemma_header_concat(HeaderScan::Hunting { after_pad: false }, heard, seq![b]);
                lemma_header_one(header_run(heard), b);
            }
            if after_pad && b == ZDLE {
                synced = true;
            } else {
                after_pad = b == ZPAD;
            }
        }
        Ok(())
    }

    /// Reads type and data of a header in `encoding`.
    #[verifier::rlimit(60)]
    fn receive_body(&mut self, encoding: u8) -> (r: Result<[u8; 5], Error<D::Error>>)
        requires
            FrameEncoding(encoding).receivable(),
        ensures
            final(self).only_heard_since(*old(self)),
            final(self).logged_since(*old(self), r matches Err(Error::TimedOut)),
            final(self).waited_since(*old(self), long_wait()),
            final(self).read_as(*old(self), long_wait(), r),
            final(self).crc_errors() == old(self).crc_errors(),
            final(self).line_end_errors() == old(self).line_end_errors(),
            old(self).reads_left() > 0 ==> final(self).reads_left() < old(self).reads_left(),
            ({
                let state = header_from(
                    HeaderScan::Fields { encoding, values: Seq::empty(), partial: Seq::empty() },
                    final(self).heard_since(*old(self)),
                );
                match r {
                    Ok(body) => state == (HeaderScan::Fields {
                        encoding,
                        values: body@,
                        partial: Seq::empty(),
                    }),
                    Err(Error::InvalidHex(x)) => state == (HeaderScan::BadHex { byte: x }),
                    Err(Error::InvalidEscape(x)) => state == (HeaderScan::BadEscape { byte: x }),
                    Err(Error::TimedOut) => state is Fields,
                    Err(Error::Device(_)) => state is Fields,
                    Err(_) => false,
                }
            }),
    {
        let timeout = Duration::from_secs(TIMEOUT_SECS);
        let enc = if encoding == ZHEX {
            RecvEnc::Hex
        } else {
            RecvEnc::Esc
        };
        let ghost start = HeaderScan::Fields {
            encoding,
            values: Seq::empty(),
            partial: Seq::empty(),
        };
        let ghost none = Seq::<u8>::empty();
        let r = self.recv::<1>(enc, timeout);
        let ghost s1 = *self;
        let ghost w1 = self.heard_since(*old(self));
        proof {
            lemma_header_fields(encoding, none, 1, w1);
        }
        let kind = match r {
            Ok(a) => a,
            Err(e) => {
                return Err(e);
            },
        };
        proof {
            assert(none + kind@ =~= kind@);
            assert(w1.len() > 0);
        }
        let r = self.recv::<4>(enc, timeout);
        proof {
            let w2 = self.heard_since(s1);
            self.lemma_heard_chain(s1, *old(self));
            self.lemma_waited_chain(s1, *old(self), long_wait());
            self.lemma_read_chain(s1, *old(self), long_wait(), r);
            lemma_header_concat(start, w1, w2);
            lemma_header_fields(encoding, kind@, 4, w2);
        }
        let data = match r {
            Ok(a) => a,
            Err(e) => {
                return Err(e);
            },
        };
        let body = [kind[0], data[0], data[1], data[2], data[3]];
        proof {
            assert(kind@ + data@ =~= body@);
        }
        Ok(body)
    }

    /// Reads the frame check behind `body`, the type and data of a header
    /// in `encoding`, and tells whether it is theirs.
    #[verifier::rlimit(60)]
    fn receive_check(&mut self, encoding: u8, body: &[u8; 5]) -> (r: Result<bool, Error<D::Error>>)
        requires
            FrameEncoding(encoding).receivable(),
        ensures
            final(self).only_heard_since(*old(self)),
            final(self).logged_since(*old(self), r matches Err(Error::TimedOut)),
            final(self).waited_since(*old(self), long_wait()),
            final(self).read_as(*old(self), long_wait(), r),
            final(self).crc_errors() == old(self).crc_errors(),
            final(self).line_end_errors() == old(self).line_end_errors(),
            old(self).reads_left() > 0 ==> final(self).reads_left() < old(self).reads_left(),
            ({
                let state = header_from(
                    HeaderScan::Fields { encoding, values: body@, partial: Seq::empty() },
                    final(self).heard_since(*old(self)),
                );
                match r {
                    Ok(ok) => {
                        &&& state == after_fields(encoding, scan_values(state))
                        &&& scan_values(state).len() == header_fields(encoding)
                        &&& scan_values(state).take(5) == body@
                        &&& ok == header_check_ok(encoding, scan_values(state))
                    },
                    Err(Error::InvalidHex(x)) => state == (HeaderScan::BadHex { byte: x }),
                    Err(Error::InvalidEscape(x)) => state == (HeaderScan::BadEscape { byte: x }),
                    Err(Error::TimedOut) => state is Fields,
                    Err(Error::Device(_)) => state is Fields,
                    Err(_) => false,
                }
            }),
    {
        let timeout = Duration::from_secs(TIMEOUT_SECS);
        let enc = if encoding == ZHEX {
            RecvEnc::Hex
        } else {
            RecvEnc::Esc
        };
        if encoding == ZBIN32 {
            let r = self.recv::<4>(enc, timeout);
            proof {
                lemma_header_fields(encoding, body@, 4, self.heard_since(*old(self)));
            }
            match r {
                Ok(crc) => {
                    proof {
                        let values = body@ + crc@;
                        assert(values.take(5) =~= body@);
                        assert(values.subrange(5, 9) =~= crc@);
                    }
                    Ok(u32_from_be(crc) == crc32(body.as_slice(), None))
                },
                Err(e) => Err(e),
            }
        } else {
            let r = self.recv::<2>(enc, timeout);
            proof {
                lemma_header_fields(encoding, body@, 2, self.heard_since(*old(self)));
            }
            match r {
                Ok(crc) => {
                    proof {
                        let values = body@ + crc@;
                        assert(values.take(5) =~= body@);
                        assert(values.subrange(5, 7) =~= crc@);
                    }
                    Ok(u16_from_be(crc) == crc16(body.as_slice(), None))
                },
                Err(e) => Err(e),
            }
        }
    }

    /// Reads the `count` bytes of the line end behind a hexadecimal
    /// header and counts those that are not what a line end holds.
    #[verifier::rlimit(60)]
    fn receive_line_end(&mut self, count: usize) -> (r: Result<(), Error<D::Error>>)
        requires
            count <= 3,
        ensures
            final(self).only_heard_since(*old(self)),
            final(self).logged_since(*old(self), r matches Err(Error::TimedOut)),
            final(self).waited_since(*old(self), long_wait()),
            final(self).read_as(*old(self), long_wait(), r),
            final(self).crc_errors() == old(self).crc_errors(),
            final(self).line_end_errors() == bump_by(
                old(self).line_end_errors(),
                line_end_faults(final(self).heard_since(*old(self))),
            ),
            match r {
                Ok(()) => final(self).heard_since(*old(self)).len() == count,
                Err(Error::TimedOut) => final(self).heard_since(*old(self)).len() < count,
                Err(Error::Device(_)) => final(self).heard_since(*old(self)).len() < count,
                Err(_) => false,
            },
    {
        let timeout = Duration::from_secs(TIMEOUT_SECS);
        let mut i: usize = 0;
        proof {
            self.lemma_heard_nothing();
            self.lemma_waited_nothing(long_wait());
        }
        while i < count
            invariant
                i <= count <= 3,
                self.only_heard_since(*old(self)),
                self.logged_since(*old(self), false),
                self.waited_since(*old(self), long_wait()),
                self.read_as(*old(self), long_wait(), Ok::<(), Error<D::Error>>(())),
                timeout.as_pair() == long_wait(),
                self.crc_errors() == old(self).crc_errors(),
                self.line_end_errors() == bump_by(
                    old(self).line_end_errors(),
                    line_end_faults(self.heard_since(*old(self))),
                ),
                self.heard_since(*old(self)).len() == i,
            decreases count - i,
        {
            let ghost start = *self;
            let ghost heard = self.heard_since(*old(self));
            let r = self.recv_raw(timeout);
            proof {
                self.lemma_heard_chain(start, *old(self));
                self.lemma_waited_chain(start, *old(self), long_wait());
                self.lemma_read_chain(start, *old(self), long_wait(), r);
            }
            let byte = match r {
                Ok(b) => b,
                Err(e) => {
                    proof {
                        assert(self.heard_since(*old(self)) =~= heard);
                    }
                    return Err(e);
                },
            };
            proof {
                assert(self.heard_since(start) =~= seq![byte]);
                assert(self.heard_since(*old(self)) =~= heard.push(byte));
            }
            let faulty = if i == 0 {
                byte != CR
            } else if i == 1 {
                byte & 0x7f != LF
            } else {
                byte != XON
            };
            assert(faulty == (line_end_fault(i as nat, byte) == 1));
            if faulty && self.line_end_errors < u64::MAX {
                self.line_end_errors = self.line_end_errors + 1;
            }
            i += 1;
        }
        Ok(())
    }

    /// Receives a frame header whose start has been found: the encoding,
    /// the fields, and the line end.
    #[verifier::rlimit(80)]
    fn receive_header_behind_start(&mut self) -> (r: Result<FrameHeader, Error<D::Error>>)
        ensures
            final(self).only_heard_since(*old(self)),
            final(self).logged_since(*old(self), r matches Err(Error::TimedOut)),
            final(self).waited_since(*old(self), long_wait()),
            final(self).read_as(*old(self), long_wait(), r),
            old(self).reads_left() > 0 ==> final(self).reads_left() < old(self).reads_left(),
            header_outcome(
                header_from(HeaderScan::Encoding, final(self).heard_since(*old(self))),
                r,
            ),
            final(self).crc_errors() == header_errors_at(
                header_from(HeaderScan::Encoding, final(self).heard_since(*old(self))),
                old(self).crc_errors(),
            ),
            final(self).line_end_errors() == bump_by(
                old(self).line_end_errors(),
                line_end_faults(
                    line_end_of(
                        header_from(HeaderScan::Encoding, final(self).heard_since(*old(self))),
                        final(self).heard_since(*old(self)),
                    ),
                ),
            ),
    {
        let normal = Duration::from_secs(TIMEOUT_SECS);
        let ghost origin = HeaderScan::Encoding;
        // The encoding.
        let r = self.recv_raw(normal);
        let ghost s2 = *self;
        let ghost w2 = self.heard_since(*old(self));
        let byte = match r {
            Ok(b) => b,
            Err(e) => {
                return Err(e);
            },
        };
        proof {
            assert(w2 =~= seq![byte]);
            lemma_header_one(HeaderScan::Encoding, byte);
        }
        let encoding = FrameEncoding(byte);
        if !encoding.is_receivable() {
            return Err(Error::InvalidFrameEncoding(encoding));
        }
        // Type and data.
        let r = self.receive_body(byte);
        let ghost sb = *self;
        let ghost wb = self.heard_since(*old(self));
        proof {
            self.lemma_heard_chain(s2, *old(self));
            self.lemma_waited_chain(s2, *old(self), long_wait());
            self.lemma_read_chain(s2, *old(self), long_wait(), r);
            lemma_header_concat(origin, w2, self.heard_since(s2));
        }
        let body = match r {
            Ok(found) => found,
            Err(e) => {
                return Err(e);
            },
        };
        // The frame check.
        let r = self.receive_check(byte, &body);
        let ghost s3 = *self;
        let ghost w3 = self.heard_since(*old(self));
        proof {
            self.lemma_heard_chain(sb, *old(self));
            self.lemma_waited_chain(sb, *old(self), long_wait());
            self.lemma_read_chain(sb, *old(self), long_wait(), r);
            lemma_header_concat(origin, wb, self.heard_since(sb));
        }
        let ok = match r {
            Ok(found) => found,
            Err(e) => {
                return Err(e);
            },
        };
        let ghost values = scan_values(header_from(origin, w3));
        if !ok {
            self.note_crc_error();
        }
        let ghost s4 = *self;
        let frame = FrameHeader {
            encoding,
            frame_type: FrameType(body[0]),
            data: [body[1], body[2], body[3], body[4]],
        };
        proof {
            assert(frame.checked_bytes() =~= body@);
            assert(s4.heard_since(*old(self)) == w3);
        }
        // The line end.
        if byte == ZHEX {
            let count: usize = if body[0] == ZACK || body[0] == ZFIN {
                2
            } else {
                3
            };
            let r = self.receive_line_end(count);
            proof {
                assert(values[0] == body@[0]);
                self.lemma_heard_chain(s4, *old(self));
                self.lemma_waited_chain(s4, *old(self), long_wait());
                self.lemma_read_chain(s4, *old(self), long_wait(), r);
                lemma_header_concat(origin, w3, self.heard_since(s4));
                lemma_header_trailer(byte, values, self.heard_since(s4));
            }
            match r {
                Ok(()) => {},
                Err(e) => {
                    return Err(e);
                },
            }
        }
        Ok(frame)
    }

    /// Receives the next frame header. Bytes before it are dropped: the
    /// header starts behind the first `ZDLE` that follows a `ZPAD`.
    ///
    /// `timeout` bounds the wait for each byte up to that `ZDLE`; the
    /// bytes of the header itself are waited for `TIMEOUT_SECS` seconds
    /// each. A frame check that is not that of type and data is counted
    /// and the header is handed out all the same. Behind a hexadecimal
    /// header the line end is read: each of its bytes that is not what a
    /// line end holds is counted, and the header is handed out all the
    /// same.
    ///
    /// A read at which the line fails is the last: the error is the
    /// line's, and the read was to wait as `header_wait` says.
    #[verifier::rlimit(80)]
    pub fn receive_frame_header(&mut self, timeout: Duration) -> (r: Result<
        FrameHeader,
        Error<D::Error>,
    >)
        ensures
            final(self).only_heard_since(*old(self)),
            final(self).logged_since(*old(self), r matches Err(Error::TimedOut)),
            final(self).read_as(
                *old(self),
                header_wait(final(self).heard_since(*old(self)), timeout.as_pair()),
                r,
            ),
            old(self).reads_left() > 0 ==> final(self).reads_left() < old(self).reads_left(),
            header_result(final(self).heard_since(*old(self)), r),
            final(self).crc_errors() == header_errors(
                final(self).heard_since(*old(self)),
                old(self).crc_errors(),
            ),
            final(self).line_end_errors() == line_end_errors_behind(
                final(self).heard_since(*old(self)),
                old(self).line_end_errors(),
            ),
            old(self).events().len() <= final(self).events().len(),
            final(self).waits() == old(self).waits() + header_waits(
                final(self).heard_since(*old(self)),
                (final(self).events().len() - old(self).events().len()) as nat,
                timeout.as_pair(),
            ),
    {
        let ghost origin = HeaderScan::Hunting { after_pad: false };
        let ghost hunt = timeout.as_pair();
        let r = self.hunt(timeout);
        let ghost s1 = *self;
        let ghost w1 = self.heard_since(*old(self));
        proof {
            let n1 = (self.events().len() - old(self).events().len()) as nat;
            let uniform = Seq::new(n1, |i: int| hunt);
            assert((old(self).waits() + uniform).skip(old(self).waits().len() as int) =~= uniform);
            if r is Err {
                assert(old(self).events().len() + w1.len() + (if r matches Err(Error::TimedOut) {
                    1int
                } else {
                    0int
                }) == self.events().len());
                lemma_waits_hunting(w1, n1, hunt);
                assert(line_end_faults(line_end_of(header_run(w1), w1)) == 0);
                old(self).lemma_line_end_errors_bounded();
                assert(header_wait(w1, hunt) == hunt);
            }
        }
        match r {
            Ok(()) => {},
            Err(e) => {
                return Err(e);
            },
        }
        let r = self.receive_header_behind_start();
        proof {
            let w2 = self.heard_since(s1);
            let w = self.heard_since(*old(self));
            self.lemma_heard_chain(s1, *old(self));
            lemma_header_concat(origin, w1, w2);
            lemma_line_end_within(HeaderScan::Encoding, w1, w2);
            assert(w =~= w1 + w2);
            let n1 = (s1.events().len() - old(self).events().len()) as nat;
            let n2 = (self.events().len() - s1.events().len()) as nat;
            let first = Seq::new(n1, |i: int| hunt);
            let second = Seq::new(n2, |i: int| long_wait());
            assert(self.waits() =~= old(self).waits() + (first + second));
            assert(n1 == w1.len());
            lemma_waits_behind_start(w1, w2, n2, hunt);
            lemma_hunt_is_over(HeaderScan::Encoding, w2);
            assert(header_wait(w, hunt) == long_wait());
            self.lemma_read_joined(s1, *old(self), hunt, long_wait(), r);
        }
        r
    }

    /// Announces the receiver: sends a hexadecimal `ZRINIT` header with no
    /// flags set.
    pub fn send_zrinit(&mut self) -> (r: Result<(), Error<D::Error>>)
        ensures
            final(self).sent_result(*old(self), frame_text(ZHEX, seq![ZRINIT, 0, 0, 0, 0]), r),
    {
        let frame = FrameHeader::new(FrameEncoding(ZHEX), FrameType(ZRINIT));
        assert(frame.checked_bytes() =~= seq![ZRINIT, 0, 0, 0, 0]);
        self.send_frame(frame)
    }

    /// Asks for the file from byte `pos` on: sends a hexadecimal `ZRPOS`
    /// header with `pos` as its count.
    pub fn send_zrpos(&mut self, pos: u32) -> (r: Result<(), Error<D::Error>>)
        ensures
            final(self).sent_result(*old(self), frame_text(ZHEX, seq![ZRPOS] + le_bytes(pos)), r),
    {
        let frame = FrameHeader::new(FrameEncoding(ZHEX), FrameType(ZRPOS)).set_count(pos);
        assert(frame.checked_bytes() =~= seq![ZRPOS] + le_bytes(pos));
        self.send_frame(frame)
    }

    /// Closes the session: sends a hexadecimal `ZFIN` header.
    pub fn send_zfin(&mut self) -> (r: Result<(), Error<D::Error>>)
        ensures
            final(self).sent_result(*old(self), frame_text(ZHEX, seq![ZFIN, 0, 0, 0, 0]), r),
    {
        let frame = FrameHeader::new(FrameEncoding(ZHEX), FrameType(ZFIN));
        assert(frame.checked_bytes() =~= seq![ZFIN, 0, 0, 0, 0]);
        self.send_frame(frame)
    }

    /// Reads the two bytes `O` `O` that end a session.
    pub fn receive_over_and_out(&mut self) -> (r: Result<(), Error<D::Error>>)
        ensures
            final(self).only_read_since(*old(self)),
            final(self).logged_since(*old(self), r matches Err(Error::TimedOut)),
            final(self).waited_since(*old(self), long_wait()),
            final(self).read_as(*old(self), long_wait(), r),
            ({
                let w = final(self).heard_since(*old(self));
                match r {
                    Ok(()) => w == seq![0x4fu8, 0x4fu8],
                    Err(Error::UnexpectedByte(b)) => b != 0x4f && (w == seq![b] || w
                        == seq![0x4fu8, b]),
                    Err(Error::TimedOut) => w.len() == 0 || w == seq![0x4fu8],
                    Err(Error::Device(_)) => w.len() == 0 || w == seq![0x4fu8],
                    Err(_) => false,
                }
            }),
    {
        let timeout = Duration::from_secs(TIMEOUT_SECS);
        let first = match self.recv_raw(timeout) {
            Ok(b) => b,
            Err(e) => {
                return Err(e);
            },
        };
        let ghost mid = *self;
        proof {
            assert(mid.heard_since(*old(self)) =~= seq![first]);
        }
        if first != 0x4f {
            return Err(Error::UnexpectedByte(first));
        }
        let r = self.recv_raw(timeout);
        proof {
            self.lemma_heard_chain(mid, *old(self));
            self.lemma_waited_chain(mid, *old(self), long_wait());
            self.lemma_read_chain(mid, *old(self), long_wait(), r);
        }
        let second = match r {
            Ok(b) => b,
            Err(e) => {
                proof {
                    assert(self.heard_since(*old(self)) =~= seq![0x4fu8]);
                }
                return Err(e);
            },
        };
        proof {
            assert(self.heard_since(mid) =~= seq![second]);
            assert(self.heard_since(*old(self)) =~= seq![0x4fu8, second]);
        }
        if second != 0x4f {
            return Err(Error::UnexpectedByte(second));
        }
        Ok(())
    }
}

/// Writes the first `len` bytes of `src` into `dst` from `offset` on.
pub fn copy_into(dst: &mut [u8], offset: usize, src: &[u8], len: usize)
    requires
        offset + len <= old(dst)@.len(),
        len <= src@.len(),
    ensures
        final(dst)@.len() == old(dst)@.len(),
        forall|k: int|
            0 <= k < final(dst)@.len() ==> final(dst)@[k] == (if offset <= k < offset + len {
                src@[k - offset]
            } else {
                old(dst)@[k]
            }),
{
    let size = dst.len();
    let mut i: usize = 0;
    while i < len
        invariant
            i <= len,
            offset + len <= size,
            size == dst@.len(),
            len <= src@.len(),
            dst@.len() == old(dst)@.len(),
            forall|k: int|
                0 <= k < dst@.len() ==> dst@[k] == (if offset <= k < offset + i {
                    src@[k - offset]
                } else {
                    old(dst)@[k]
                }),
        decreases len - i,
    {
        dst[offset + i] = src[i];
        i += 1;
    }
}

} // verus!
