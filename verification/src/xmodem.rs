//! The XMODEM-CRC receiver: blocks of 128 bytes, each with a CRC-16.

use vstd::prelude::*;
use crate::consts::{ACK, NAK};
use crate::crc::{checksum, spec_crc16};
use crate::device::{
    as_events, as_reads, as_sends, lemma_sends_concat, one_fault_more, reads_after, Action, Attempt,
    Device, Fault, SerialDevice,
};
use crate::proto::{be_bytes16, be_value16, u16_from_be, u16_to_be};
use crate::time::Duration;

verus! {

/// The first byte of every packet.
pub const START_OF_HEADER: u8 = 0x01;

/// The byte by which the sender ends the transfer.
pub const END_OF_TRANSMISSION: u8 = 0x04;

/// The byte that closes the transfer behind `EOT`.
pub const END_OF_TRANSMISSION_BLOCK: u8 = 0x17;

/// The answer by which the receiver calls the transfer off.
pub const CANCEL: u8 = 0x18;

/// The byte that asks the sender for blocks with a CRC-16.
pub const CHECKSUM_REQUEST: u8 = 0x43;

/// Bytes of data in one packet.
pub const BLOCK_SIZE: usize = 128;

/// Milliseconds that the receiver waits for the first byte of a packet.
pub const RESPONSE_MILLIS: u64 = 500;

/// How many reads of the line a receiver made by `Receiver::new` may make.
pub const READ_LIMIT: u64 = 0xffff_ffff_ffff_ffff;

/// One XMODEM packet: `SOH`, the block's number, the number inverted, 128
/// bytes of data, and the CRC-16 of the data, most significant byte first.
#[derive(Debug, Clone, Copy)]
pub struct Packet {
    kind: u8,
    id: u8,
    id_inverted: u8,
    data: [u8; 128],
    crc: [u8; 2],
}

/// Why a transfer stopped.
#[derive(Debug)]
pub enum Error<E> {
    /// A packet's number is not the one after the number before it.
    BadPacketId,
    /// A byte that starts no packet stood where a packet was to start.
    BadPacketType(u8),
    /// The line fell silent inside a packet.
    TimedOut,
    /// More blocks came than the output has room for.
    Overflow,
    /// The serial line failed.
    Device(E),
    /// No packet started in time.
    NoResponse,
}

/// Whether a packet with these parts is intact: the inverted number is the
/// complement of the number, and the CRC is that of the data.
pub open spec fn intact(id: u8, id_inverted: u8, data: Seq<u8>, crc: Seq<u8>) -> bool {
    id == !id_inverted && spec_crc16(data) == be_value16(crc)
}

/// Whether a packet numbered `id` may follow one numbered `prev`: the
/// first packet may have any number, each later one has the number after
/// its predecessor's, and 0 comes after 255.
pub open spec fn follows(prev: Option<u8>, id: u8) -> bool {
    match prev {
        None => true,
        Some(p) => id == (if p == 255 {
            0u8
        } else {
            (p + 1) as u8
        }),
    }
}

impl Packet {
    /// The block's number.
    pub closed spec fn id(self) -> u8 {
        self.id
    }

    /// The block's number as the packet holds it a second time.
    pub closed spec fn id_inverted(self) -> u8 {
        self.id_inverted
    }

    /// The 128 bytes of data.
    pub closed spec fn data(self) -> Seq<u8> {
        self.data@
    }

    /// The two bytes of the CRC.
    pub closed spec fn crc(self) -> Seq<u8> {
        self.crc@
    }

    /// The first byte of the packet.
    pub closed spec fn kind(self) -> u8 {
        self.kind
    }

    /// The 133 bytes of the packet.
    pub open spec fn wire(self) -> Seq<u8> {
        seq![self.kind()] + self.tail()
    }

    /// The 132 bytes of the packet behind its first.
    pub open spec fn tail(self) -> Seq<u8> {
        seq![self.id(), self.id_inverted()] + self.data() + self.crc()
    }

    /// A packet has 128 bytes of data and two of CRC: 133 bytes in all.
    pub proof fn lemma_sizes(self)
        ensures
            self.data().len() == 128,
            self.crc().len() == 2,
            self.tail().len() == 132,
            self.wire().len() == 133,
    {
    }

    /// A packet of all zeros.
    pub fn zeroed() -> (p: Packet)
        ensures
            p.kind() == 0,
            p.id() == 0,
            p.id_inverted() == 0,
            p.data() == Seq::new(128, |i: int| 0u8),
            p.crc() == seq![0u8, 0u8],
    {
        let p = Packet { kind: 0, id: 0, id_inverted: 0, data: [0u8; 128], crc: [0u8; 2] };
        assert(p.data@ =~= Seq::new(128, |i: int| 0u8));
        assert(p.crc@ =~= seq![0u8, 0u8]);
        p
    }

    /// The packet that starts with `SOH` and goes on with `tail`.
    pub fn from_tail(tail: &[u8; 132]) -> (p: Packet)
        ensures
            p.kind() == START_OF_HEADER,
            p.tail() == tail@,
            p.wire() == seq![START_OF_HEADER] + tail@,
    {
        let mut data = [0u8; 128];
        let mut i: usize = 0;
        while i < 128
            invariant
                i <= 128,
                forall|k: int| 0 <= k < i ==> data@[k] == tail@[k + 2],
            decreases 128 - i,
        {
            data[i] = tail[i + 2];
            i += 1;
        }
        let p = Packet {
            kind: START_OF_HEADER,
            id: tail[0],
            id_inverted: tail[1],
            data,
            crc: [tail[130], tail[131]],
        };
        assert(p.tail() =~= tail@);
        p
    }

    /// Makes this the packet numbered `id` that carries `chunk`: `SOH`,
    /// `id`, its complement, the data, and the CRC-16 of the data. A chunk
    /// of fewer than 128 bytes leaves the rest of the data as it was.
    pub fn fill(&mut self, id: u8, chunk: &[u8])
        requires
            chunk@.len() <= 128,
        ensures
            final(self).kind() == START_OF_HEADER,
            final(self).id() == id,
            final(self).id_inverted() == !id,
            final(self).data() == chunk@ + old(self).data().skip(chunk@.len() as int),
            final(self).crc() == be_bytes16(spec_crc16(final(self).data())),
            intact(final(self).id(), final(self).id_inverted(), final(self).data(), final(self).crc()),
    {
        self.kind = START_OF_HEADER;
        self.id = id;
        self.id_inverted = !id;
        let mut i: usize = 0;
        while i < chunk.len()
            invariant
                i <= chunk@.len() <= 128,
                self.kind == START_OF_HEADER,
                self.id == id,
                self.id_inverted == !id,
                self.data@.len() == 128,
                forall|k: int| 0 <= k < i ==> self.data@[k] == chunk@[k],
                forall|k: int| i <= k < 128 ==> self.data@[k] == old(self).data@[k],
            decreases chunk@.len() - i,
        {
            self.data[i] = chunk[i];
            i += 1;
        }
        self.crc = u16_to_be(checksum(self.data.as_slice()));
        proof {
            assert(self.data@ =~= chunk@ + old(self).data@.skip(chunk@.len() as int));
            assert(id == !!id) by (bit_vector);
        }
    }

    /// The 133 bytes of the packet, as they travel.
    pub fn to_bytes(&self) -> (bytes: [u8; 133])
        ensures
            bytes@ == self.wire(),
    {
        let mut bytes = [0u8; 133];
        bytes[0] = self.kind;
        bytes[1] = self.id;
        bytes[2] = self.id_inverted;
        let mut i: usize = 0;
        while i < 128
            invariant
                i <= 128,
                bytes@[0] == self.kind,
                bytes@[1] == self.id,
                bytes@[2] == self.id_inverted,
                forall|k: int| 0 <= k < i ==> bytes@[k + 3] == self.data@[k],
            decreases 128 - i,
        {
            bytes[i + 3] = self.data[i];
            i += 1;
        }
        bytes[131] = self.crc[0];
        bytes[132] = self.crc[1];
        assert(bytes@ =~= self.wire());
        bytes
    }

    /// Whether the packet is intact.
    pub fn is_intact(&self) -> (r: bool)
        ensures
            r == intact(self.id(), self.id_inverted(), self.data(), self.crc()),
    {
        let checksum_good = checksum(self.data.as_slice()) == u16_from_be(self.crc);
        let id_good = self.id == !self.id_inverted;
        checksum_good && id_good
    }

    /// The block's number.
    pub fn number(&self) -> (id: u8)
        ensures
            id == self.id(),
    {
        self.id
    }

    /// The 128 bytes of data.
    pub fn payload(&self) -> (data: &[u8; 128])
        ensures
            data@ == self.data(),
    {
        &self.data
    }
}

/// Whether a packet numbered `id` may follow one numbered `prev`.
pub fn id_follows(prev: Option<u8>, id: u8) -> (r: bool)
    ensures
        r == follows(prev, id),
{
    match prev {
        None => true,
        Some(p) => id == p.wrapping_add(1),
    }
}

/// Why a stream of packets ended before its time, where the line itself
/// did not fail.
pub enum Failure {
    BadPacketId,
    BadPacketType(u8),
    TimedOut,
    Overflow,
    NoResponse,
}

/// The failure that the error `e` tells of.
pub open spec fn failure_of<E>(e: Error<E>) -> Failure {
    match e {
        Error::BadPacketId => Failure::BadPacketId,
        Error::BadPacketType(b) => Failure::BadPacketType(b),
        Error::TimedOut => Failure::TimedOut,
        Error::Overflow => Failure::Overflow,
        _ => Failure::NoResponse,
    }
}

/// What the receiver is waiting for.
pub enum Stage {
    /// For the line to run empty, before the first stream.
    Flushing,
    /// For the first byte of a packet.
    Start,
    /// For the rest of a packet, of which `tail` has come behind the
    /// `SOH`.
    Tail { tail: Seq<u8> },
    /// For the `ETB` behind the `EOT`.
    Ending,
    /// For nothing: the transfer is over.
    Done,
    /// For nothing: the transfer has failed.
    Failed(Failure),
    /// For nothing: reads were made after the transfer had ended.
    Overrun,
}

/// A transfer as far as the reads made so far have carried it.
pub struct Stream {
    /// Whether the receiver answers each packet that it takes with `ACK`.
    pub acks: bool,
    /// The number of the last packet taken in this stream.
    pub last: Option<u8>,
    /// The blocks taken, first byte first.
    pub data: Seq<u8>,
    /// Every byte that the receiver has sent.
    pub replies: Seq<u8>,
    /// What the receiver is waiting for.
    pub stage: Stage,
}

/// A stream at its start: CRC mode asked for, no packet taken.
pub open spec fn stream_start(acks: bool) -> Stream {
    Stream {
        acks,
        last: None,
        data: Seq::empty(),
        replies: seq![CHECKSUM_REQUEST],
        stage: Stage::Start,
    }
}

/// A transfer before its first stream: nothing sent, the line not yet
/// empty.
pub open spec fn transfer_start(acks: bool) -> Stream {
    Stream { acks, last: None, data: Seq::empty(), replies: Seq::empty(), stage: Stage::Flushing }
}

/// The transfer `s` brought to an end by `failure`.
pub open spec fn stream_failed(s: Stream, failure: Failure) -> Stream {
    Stream { stage: Stage::Failed(failure), ..s }
}

/// What becomes of `s` when the 132 bytes `tail` have come behind an
/// `SOH`, with room for `room` bytes of blocks. A packet that is not
/// intact is answered with `NAK` and dropped. An intact one whose number
/// does not follow ends the transfer with `BadPacketId`, one for which
/// there is no room with `Overflow`; every other is taken, and answered
/// with `ACK` if the receiver answers packets.
pub open spec fn take_packet(room: nat, s: Stream, tail: Seq<u8>) -> Stream {
    let id = tail[0];
    let data = tail.subrange(2, 130);
    if !intact(id, tail[1], data, tail.subrange(130, 132)) {
        Stream { replies: s.replies.push(NAK), stage: Stage::Start, ..s }
    } else if !follows(s.last, id) {
        stream_failed(s, Failure::BadPacketId)
    } else if s.data.len() + 128 > room {
        stream_failed(s, Failure::Overflow)
    } else {
        Stream {
            last: Some(id),
            data: s.data + data,
            replies: if s.acks {
                s.replies.push(ACK)
            } else {
                s.replies
            },
            stage: Stage::Start,
            ..s
        }
    }
}

/// The transfer after one more read: `Some` with the byte that it
/// brought, `None` if it timed out. Where no packet starts in time, the
/// transfer fails with `NoResponse`, unless `retry` is set: then a new
/// stream is begun behind the blocks taken so far.
pub open spec fn stream_step(room: nat, retry: bool, s: Stream, event: Option<u8>) -> Stream {
    match s.stage {
        Stage::Flushing => match event {
            Some(_) => s,
            None => Stream { replies: s.replies.push(CHECKSUM_REQUEST), stage: Stage::Start, ..s },
        },
        Stage::Start => match event {
            Some(b) => if b == START_OF_HEADER {
                Stream { stage: Stage::Tail { tail: Seq::empty() }, ..s }
            } else if b == END_OF_TRANSMISSION {
                Stream { replies: s.replies.push(ACK), stage: Stage::Ending, ..s }
            } else {
                stream_failed(s, Failure::BadPacketType(b))
            },
            None => if retry {
                Stream {
                    last: None,
                    replies: s.replies.push(CHECKSUM_REQUEST),
                    stage: Stage::Start,
                    ..s
                }
            } else {
                stream_failed(s, Failure::NoResponse)
            },
        },
        Stage::Tail { tail } => match event {
            Some(b) => if tail.len() + 1 < 132 {
                Stream { stage: Stage::Tail { tail: tail.push(b) }, ..s }
            } else {
                take_packet(room, s, tail.push(b))
            },
            None => stream_failed(s, Failure::TimedOut),
        },
        Stage::Ending => match event {
            Some(b) => if b == END_OF_TRANSMISSION_BLOCK {
                Stream { replies: s.replies.push(ACK), stage: Stage::Done, ..s }
            } else {
                stream_failed(s, Failure::BadPacketType(b))
            },
            None => stream_failed(s, Failure::TimedOut),
        },
        _ => Stream { stage: Stage::Overrun, ..s },
    }
}

/// The transfer after the reads `events`, made in order starting from `s`.
pub open spec fn stream_from(room: nat, retry: bool, s: Stream, events: Seq<Option<u8>>) -> Stream
    decreases events.len(),
{
    if events.len() == 0 {
        s
    } else {
        stream_step(room, retry, stream_from(room, retry, s, events.drop_last()), events.last())
    }
}

/// One more read carries a transfer on by one step.
pub proof fn lemma_stream_push(
    room: nat,
    retry: bool,
    s: Stream,
    events: Seq<Option<u8>>,
    event: Option<u8>,
)
    ensures
        stream_from(room, retry, s, events.push(event)) == stream_step(
            room,
            retry,
            stream_from(room, retry, s, events),
            event,
        ),
{
    assert(events.push(event).drop_last() =~= events);
}

/// Reading on from where `head` led is reading `head` and then `tail`.
pub proof fn lemma_stream_concat(
    room: nat,
    retry: bool,
    s: Stream,
    head: Seq<Option<u8>>,
    tail: Seq<Option<u8>>,
)
    ensures
        stream_from(room, retry, s, head + tail) == stream_from(
            room,
            retry,
            stream_from(room, retry, s, head),
            tail,
        ),
    decreases tail.len(),
{
    if tail.len() == 0 {
        assert(head + tail =~= head);
    } else {
        assert((head + tail).drop_last() =~= head + tail.drop_last());
        lemma_stream_concat(room, retry, s, head, tail.drop_last());
    }
}

/// Behind an `SOH` the bytes that come are gathered up to the 132nd,
/// which settles the packet.
pub proof fn lemma_stream_tail(room: nat, retry: bool, s: Stream, w: Seq<u8>)
    requires
        s.stage == (Stage::Tail { tail: Seq::empty() }),
        w.len() <= 132,
    ensures
        stream_from(room, retry, s, as_events(w)) == (if w.len() < 132 {
            Stream { stage: Stage::Tail { tail: w }, ..s }
        } else {
            take_packet(room, s, w)
        }),
    decreases w.len(),
{
    if w.len() == 0 {
        assert(as_events(w) =~= Seq::<Option<u8>>::empty());
        assert(w =~= Seq::<u8>::empty());
    } else {
        let front = w.drop_last();
        assert(as_events(w).drop_last() =~= as_events(front));
        assert(as_events(w).last() == Some(w.last()));
        lemma_stream_tail(room, retry, s, front);
        assert(front.push(w.last()) =~= w);
    }
}

/// How long the next read of a transfer is to wait at most, as seconds
/// and nanoseconds: no time while the line is run empty, half a second
/// for the first byte of a packet, and without limit for any other byte.
pub open spec fn stream_wait(s: Stream) -> (nat, nat) {
    match s.stage {
        Stage::Flushing => (0, 0),
        Stage::Start => (0, 500_000_000),
        _ => (u64::MAX as nat, 999_999_999),
    }
}

/// How long each of the first `count` of the reads `events` was to wait,
/// for a transfer that stood at `s` before them.
pub open spec fn stream_waits(
    room: nat,
    retry: bool,
    s: Stream,
    events: Seq<Option<u8>>,
    count: nat,
) -> Seq<(nat, nat)> {
    Seq::new(count, |i: int| stream_wait(stream_from(room, retry, s, events.take(i))))
}

/// What a transfer that stands at `s` and has sent `sent` bytes of its
/// replies asks of the line next: to take the next byte of the replies,
/// if one is owed, and else to bring a byte, waiting as `stream_wait`
/// says.
pub open spec fn stream_call(s: Stream, sent: int) -> Attempt {
    if 0 <= sent < s.replies.len() {
        Attempt::Send(s.replies[sent])
    } else {
        Attempt::Read(stream_wait(s))
    }
}

/// One more read waits as the transfer stands before it.
pub proof fn lemma_stream_waits_push(
    room: nat,
    retry: bool,
    s: Stream,
    events: Seq<Option<u8>>,
    event: Option<u8>,
)
    ensures
        stream_waits(room, retry, s, events.push(event), events.len() + 1) == stream_waits(
            room,
            retry,
            s,
            events,
            events.len(),
        ).push(stream_wait(stream_from(room, retry, s, events))),
{
    let longer = stream_waits(room, retry, s, events.push(event), events.len() + 1);
    let shorter = stream_waits(room, retry, s, events, events.len());
    assert forall|i: int| 0 <= i < events.len() + 1 implies longer[i] == shorter.push(
        stream_wait(stream_from(room, retry, s, events)),
    )[i] by {
        if i < events.len() {
            assert(events.push(event).take(i) =~= events.take(i));
        } else {
            assert(events.push(event).take(i) =~= events);
        }
    }
    assert(longer =~= shorter.push(stream_wait(stream_from(room, retry, s, events))));
}

/// The reads behind an `SOH` wait without limit.
pub proof fn lemma_stream_waits_tail(
    room: nat,
    retry: bool,
    s: Stream,
    events: Seq<Option<u8>>,
    w: Seq<u8>,
    timed_out: bool,
)
    requires
        stream_from(room, retry, s, events).stage == (Stage::Tail { tail: Seq::empty() }),
        w.len() <= 132,
        timed_out ==> w.len() < 132,
    ensures
        ({
            let more = as_events(w) + (if timed_out {
                seq![None::<u8>]
            } else {
                Seq::<Option<u8>>::empty()
            });
            stream_waits(room, retry, s, events + more, events.len() + more.len()) == stream_waits(
                room,
                retry,
                s,
                events,
                events.len(),
            ) + Seq::new(more.len(), |i: int| (u64::MAX as nat, 999_999_999nat))
        }),
{
    let more = as_events(w) + (if timed_out {
        seq![None::<u8>]
    } else {
        Seq::<Option<u8>>::empty()
    });
    let whole = stream_waits(room, retry, s, events + more, events.len() + more.len());
    let first = stream_waits(room, retry, s, events, events.len());
    let second = Seq::new(more.len(), |i: int| (u64::MAX as nat, 999_999_999nat));
    let mid = stream_from(room, retry, s, events);
    assert forall|i: int| 0 <= i < events.len() + more.len() implies whole[i] == (first
        + second)[i] by {
        if i < events.len() {
            assert((events + more).take(i) =~= events.take(i));
        } else {
            let k = i - events.len();
            let part = w.take(k);
            assert((events + more).take(i) =~= events + as_events(part));
            lemma_stream_concat(room, retry, s, events, as_events(part));
            lemma_stream_tail(room, retry, mid, part);
        }
    }
    assert(whole =~= first + second);
}

/// What goes over the line while a transfer that stands at `s` makes the
/// reads `events`: each read, and behind it the bytes that the receiver
/// sends because of it, before the next read is made.
pub open spec fn stream_trace(
    room: nat,
    retry: bool,
    s: Stream,
    events: Seq<Option<u8>>,
) -> Seq<Action>
    decreases events.len(),
{
    if events.len() == 0 {
        Seq::empty()
    } else {
        let before = stream_from(room, retry, s, events.drop_last());
        let after = stream_step(room, retry, before, events.last());
        stream_trace(room, retry, s, events.drop_last()).push(Action::Read(events.last()))
            + as_sends(after.replies.skip(before.replies.len() as int))
    }
}

/// One more read stands behind what went before, and before what is sent
/// because of it.
pub proof fn lemma_stream_trace_push(
    room: nat,
    retry: bool,
    s: Stream,
    events: Seq<Option<u8>>,
    event: Option<u8>,
)
    ensures
        stream_trace(room, retry, s, events.push(event)) == stream_trace(
            room,
            retry,
            s,
            events,
        ).push(Action::Read(event)) + as_sends(
            stream_step(room, retry, stream_from(room, retry, s, events), event).replies.skip(
                stream_from(room, retry, s, events).replies.len() as int,
            ),
        ),
        stream_from(room, retry, s, events).replies.is_prefix_of(
            stream_step(room, retry, stream_from(room, retry, s, events), event).replies,
        ),
{
    assert(events.push(event).drop_last() =~= events);
    let before = stream_from(room, retry, s, events);
    let after = stream_step(room, retry, before, event);
    assert(before.replies.is_prefix_of(before.replies));
    assert(before.replies.is_prefix_of(before.replies.push(ACK)));
    assert(before.replies.is_prefix_of(before.replies.push(NAK)));
    assert(before.replies.is_prefix_of(before.replies.push(CHECKSUM_REQUEST)));
}

/// Behind an `SOH` nothing is sent before the packet is complete.
proof fn lemma_stream_tail_quiet(
    room: nat,
    retry: bool,
    s: Stream,
    events: Seq<Option<u8>>,
    w: Seq<u8>,
)
    requires
        stream_from(room, retry, s, events).stage == (Stage::Tail { tail: Seq::empty() }),
        w.len() < 132,
    ensures
        stream_trace(room, retry, s, events + as_events(w)) == stream_trace(
            room,
            retry,
            s,
            events,
        ) + as_reads(as_events(w)),
        stream_from(room, retry, s, events + as_events(w)) == (Stream {
            stage: Stage::Tail { tail: w },
            ..stream_from(room, retry, s, events)
        }),
    decreases w.len(),
{
    let mid = stream_from(room, retry, s, events);
    lemma_stream_concat(room, retry, s, events, as_events(w));
    lemma_stream_tail(room, retry, mid, w);
    if w.len() == 0 {
        assert(events + as_events(w) =~= events);
        assert(stream_trace(room, retry, s, events) + as_reads(as_events(w)) =~= stream_trace(
            room,
            retry,
            s,
            events,
        ));
    } else {
        let front = w.drop_last();
        lemma_stream_tail_quiet(room, retry, s, events, front);
        assert((events + as_events(front)).push(Some(w.last())) =~= events + as_events(w));
        lemma_stream_trace_push(room, retry, s, events + as_events(front), Some(w.last()));
        lemma_stream_push(room, retry, s, events + as_events(front), Some(w.last()));
        let before = stream_from(room, retry, s, events + as_events(front));
        assert(before.replies.skip(before.replies.len() as int) =~= Seq::<u8>::empty());
        assert(as_sends(Seq::<u8>::empty()) =~= Seq::<Action>::empty());
        assert((stream_trace(room, retry, s, events) + as_reads(as_events(front))).push(
            Action::Read(Some(w.last())),
        ) + Seq::<Action>::empty() =~= stream_trace(room, retry, s, events) + as_reads(
            as_events(w),
        ));
    }
}

/// Behind an `SOH` every read of the packet stands before the answer to
/// the packet.
pub proof fn lemma_stream_trace_tail(
    room: nat,
    retry: bool,
    s: Stream,
    events: Seq<Option<u8>>,
    w: Seq<u8>,
    timed_out: bool,
)
    requires
        stream_from(room, retry, s, events).stage == (Stage::Tail { tail: Seq::empty() }),
        w.len() <= 132,
        timed_out ==> w.len() < 132,
    ensures
        ({
            let more = as_events(w) + (if timed_out {
                seq![None::<u8>]
            } else {
                Seq::<Option<u8>>::empty()
            });
            let mid = stream_from(room, retry, s, events);
            let after = stream_from(room, retry, s, events + more);
            &&& mid.replies.is_prefix_of(after.replies)
            &&& stream_trace(room, retry, s, events + more) == stream_trace(
                room,
                retry,
                s,
                events,
            ) + as_reads(more) + as_sends(after.replies.skip(mid.replies.len() as int))
        }),
{
    let none = Seq::<Option<u8>>::empty();
    let mid = stream_from(room, retry, s, events);
    let base = stream_trace(room, retry, s, events);
    assert(as_sends(Seq::<u8>::empty()) =~= Seq::<Action>::empty());
    assert(mid.replies.is_prefix_of(mid.replies));
    assert(mid.replies.skip(mid.replies.len() as int) =~= Seq::<u8>::empty());
    if timed_out {
        let more = as_events(w) + seq![None::<u8>];
        lemma_stream_tail_quiet(room, retry, s, events, w);
        assert((events + as_events(w)).push(None) =~= events + more);
        lemma_stream_trace_push(room, retry, s, events + as_events(w), None);
        lemma_stream_push(room, retry, s, events + as_events(w), None);
        assert((base + as_reads(as_events(w))).push(Action::Read(None)) + Seq::<Action>::empty()
            =~= base + as_reads(more) + Seq::<Action>::empty());
    } else if w.len() < 132 {
        assert(as_events(w) + none =~= as_events(w));
        lemma_stream_tail_quiet(room, retry, s, events, w);
        assert(base + as_reads(as_events(w)) + Seq::<Action>::empty() =~= base + as_reads(
            as_events(w),
        ));
    } else {
        let front = w.drop_last();
        let more = as_events(w);
        assert(more + none =~= more);
        lemma_stream_tail_quiet(room, retry, s, events, front);
        assert((events + as_events(front)).push(Some(w.last())) =~= events + more);
        lemma_stream_trace_push(room, retry, s, events + as_events(front), Some(w.last()));
        lemma_stream_push(room, retry, s, events + as_events(front), Some(w.last()));
        let after = stream_from(room, retry, s, events + more);
        assert((base + as_reads(as_events(front))).push(Action::Read(Some(w.last())))
            + as_sends(after.replies.skip(mid.replies.len() as int)) =~= base + as_reads(more)
            + as_sends(after.replies.skip(mid.replies.len() as int)));
    }
}

/// The receiving end of an XMODEM-CRC transfer on a serial line.
pub struct Receiver<D: SerialDevice> {
    buffer: Packet,
    dev: Device<D>,
    written: usize,
    acks: bool,
}

impl<D: SerialDevice> Receiver<D> {
    /// Every byte sent so far.
    pub closed spec fn sent(self) -> Seq<u8> {
        self.dev.sent()
    }

    /// Every byte received so far.
    pub closed spec fn received(self) -> Seq<u8> {
        self.dev.received()
    }

    /// What every read so far has come to, oldest first: the byte that it
    /// brought, or `None` for a read that timed out.
    pub closed spec fn events(self) -> Seq<Option<u8>> {
        self.dev.events()
    }

    /// How long each of the reads in `events` was to wait at most, as
    /// seconds and nanoseconds.
    pub closed spec fn waits(self) -> Seq<(nat, nat)> {
        self.dev.waits()
    }

    /// Everything that went over the line, in the order in which it
    /// happened: each byte sent and each read made.
    pub closed spec fn history(self) -> Seq<Action> {
        self.dev.history()
    }

    /// Every call at which the line has failed, oldest first.
    pub closed spec fn faults(self) -> Seq<Fault<D::Error>> {
        self.dev.faults()
    }

    /// Whether the line has failed since `before` only as `r` tells: not
    /// at all, or, if `r` holds an error of the line, once, with that
    /// error, in the last call that was made of the line.
    pub open spec fn failed_as<T>(self, before: Self, r: Result<T, Error<D::Error>>) -> bool {
        match r {
            Err(Error::Device(e)) => one_fault_more(
                before.faults(),
                self.faults(),
                self.history().len(),
                self.sent().len(),
                e,
            ),
            _ => self.faults() == before.faults(),
        }
    }

    /// How many reads were asked of the line since `before`: those that
    /// came back and the one, if any, at which the line failed.
    pub open spec fn reads_asked(self, before: Self) -> int {
        self.events().len() - before.events().len() + (if self.faults().len()
            > before.faults().len() && self.faults().last().tried is Read {
            1int
        } else {
            0int
        })
    }

    /// Whether the line has failed since `before` only as `r` tells, and
    /// every read asked of it since has used up one of the reads that
    /// were left, as far as they went.
    pub open spec fn accounted<T>(self, before: Self, r: Result<T, Error<D::Error>>) -> bool {
        &&& self.failed_as(before, r)
        &&& self.reads_left() == reads_after(before.reads_left(), self.reads_asked(before))
    }

    /// What went over the line since `before`.
    pub open spec fn history_since(self, before: Self) -> Seq<Action> {
        self.history().skip(before.history().len() as int)
    }

    /// The bytes sent since `before`.
    pub open spec fn sent_since(self, before: Self) -> Seq<u8> {
        self.sent().skip(before.sent().len() as int)
    }

    /// The reads made since `before`.
    pub open spec fn events_since(self, before: Self) -> Seq<Option<u8>> {
        self.events().skip(before.events().len() as int)
    }

    /// The waits of the reads made since `before`.
    pub open spec fn waits_since(self, before: Self) -> Seq<(nat, nat)> {
        self.waits().skip(before.waits().len() as int)
    }

    /// How many more times the line may be read.
    pub closed spec fn reads_left(self) -> nat {
        self.dev.reads_left()
    }

    /// How many bytes of blocks have been written to the output.
    pub closed spec fn written(self) -> nat {
        self.written as nat
    }

    /// Whether each packet that is taken is answered with `ACK`.
    pub closed spec fn acks(self) -> bool {
        self.acks
    }

    /// This receiver is `before` at a later time: the line's history has
    /// only grown, no read has come back, and no block was taken back.
    pub open spec fn later_than(self, before: Self) -> bool {
        &&& before.sent().is_prefix_of(self.sent())
        &&& before.events().is_prefix_of(self.events())
        &&& self.reads_left() <= before.reads_left()
        &&& self.written() >= before.written()
        &&& self.acks() == before.acks()
    }

    /// A receiver on `dev` that may read the line `READ_LIMIT` times and
    /// answers no packet but the last.
    pub fn new(dev: D) -> (r: Receiver<D>)
        ensures
            r.sent() == Seq::<u8>::empty(),
            r.received() == Seq::<u8>::empty(),
            r.events() == Seq::<Option<u8>>::empty(),
            r.waits() == Seq::<(nat, nat)>::empty(),
            r.history() == Seq::<Action>::empty(),
            r.faults() == Seq::<Fault<D::Error>>::empty(),
            r.reads_left() == READ_LIMIT,
            r.written() == 0,
            !r.acks(),
    {
        Receiver {
            buffer: Packet::zeroed(),
            dev: Device::new(dev, READ_LIMIT),
            written: 0,
            acks: false,
        }
    }

    /// This receiver, answering each packet that it takes with `ACK` if
    /// `acks` is set: that is what senders wait for that follow the
    /// common practice.
    pub fn acknowledging(self, acks: bool) -> (r: Receiver<D>)
        ensures
            r.sent() == self.sent(),
            r.received() == self.received(),
            r.events() == self.events(),
            r.waits() == self.waits(),
            r.history() == self.history(),
            r.faults() == self.faults(),
            r.reads_left() == self.reads_left(),
            r.written() == self.written(),
            r.acks() == acks,
    {
        Receiver { buffer: self.buffer, dev: self.dev, written: self.written, acks }
    }

    /// A receiver on `dev` that may read the line `read_limit` times.
    pub fn with_read_limit(dev: D, read_limit: u64) -> (r: Receiver<D>)
        ensures
            r.sent() == Seq::<u8>::empty(),
            r.received() == Seq::<u8>::empty(),
            r.events() == Seq::<Option<u8>>::empty(),
            r.waits() == Seq::<(nat, nat)>::empty(),
            r.history() == Seq::<Action>::empty(),
            r.faults() == Seq::<Fault<D::Error>>::empty(),
            r.reads_left() == read_limit,
            r.written() == 0,
            !r.acks(),
    {
        Receiver {
            buffer: Packet::zeroed(),
            dev: Device::new(dev, read_limit),
            written: 0,
            acks: false,
        }
    }

    /// How many bytes of blocks have been written to the output.
    pub fn bytes_written(&self) -> (n: usize)
        ensures
            n == self.written(),
    {
        self.written
    }

    /// How many more times the line may be read.
    pub fn remaining_reads(&self) -> (n: u64)
        ensures
            n == self.reads_left(),
    {
        self.dev.remaining_reads()
    }

    /// Sends `byte`.
    fn transmit(&mut self, byte: u8) -> (r: Result<(), Error<D::Error>>)
        ensures
            final(self).accounted(*old(self), r),
            (r matches Err(Error::Device(_))) ==> final(self).faults().last().tried == Attempt::Send(
                byte,
            ),
            final(self).received() == old(self).received(),
            final(self).events() == old(self).events(),
            final(self).waits() == old(self).waits(),
            final(self).reads_left() == old(self).reads_left(),
            final(self).written() == old(self).written(),
            final(self).acks() == old(self).acks(),
            final(self).buffer == old(self).buffer,
            match r {
                Ok(()) => final(self).sent() == old(self).sent().push(byte) && final(self).history() == old(self).history().push(Action::Sent(byte)),
                Err(Error::Device(_)) => final(self).sent() == old(self).sent() && final(self).history() == old(self).history(),
                Err(_) => false,
            },
    {
        match self.dev.send(byte) {
            Ok(()) => Ok(()),
            Err(crate::device::Error::Device(e)) => Err(Error::Device(e)),
            Err(_) => Err(Error::TimedOut),
        }
    }

    /// Receives one byte, waiting `timeout` for it.
    fn receive_byte(&mut self, timeout: Duration) -> (r: Result<u8, Error<D::Error>>)
        ensures
            final(self).accounted(*old(self), r),
            (r matches Err(Error::Device(_))) ==> final(self).faults().last().tried == Attempt::Read(
                timeout.as_pair(),
            ),
            final(self).sent() == old(self).sent(),
            final(self).written() == old(self).written(),
            final(self).acks() == old(self).acks(),
            final(self).buffer == old(self).buffer,
            final(self).waits() == (if r matches Err(Error::Device(_)) {
                old(self).waits()
            } else {
                old(self).waits().push(timeout.as_pair())
            }),
            final(self).history() == (match r {
                Ok(byte) => old(self).history().push(Action::Read(Some(byte))),
                Err(Error::TimedOut) => old(self).history().push(Action::Read(None)),
                _ => old(self).history(),
            }),
            old(self).reads_left() > 0 ==> final(self).reads_left() == old(self).reads_left() - 1,
            old(self).reads_left() == 0 ==> final(self).reads_left() == 0 && r is Err,
            match r {
                Ok(byte) => final(self).received() == old(self).received().push(byte) && final(self).events() == old(self).events().push(Some(byte)),
                Err(Error::TimedOut) => final(self).received() == old(self).received() && final(self).events() == old(self).events().push(None),
                Err(Error::Device(_)) => final(self).received() == old(self).received() && final(self).events() == old(self).events(),
                Err(_) => false,
            },
    {
        match self.dev.recv(timeout) {
            Ok(byte) => Ok(byte),
            Err(crate::device::Error::Device(e)) => Err(Error::Device(e)),
            Err(_) => Err(Error::TimedOut),
        }
    }

    /// Reads and drops what the line holds already: bytes are read
    /// without waiting until a read brings none, or no read is left.
    pub fn flush(&mut self) -> (r: Result<(), Error<D::Error>>)
        ensures
            final(self).accounted(*old(self), r),
            (r matches Err(Error::Device(_))) ==> final(self).faults().last().tried == Attempt::Read(
                (0nat, 0nat),
            ),
            final(self).later_than(*old(self)),
            final(self).sent() == old(self).sent(),
            final(self).written() == old(self).written(),
            final(self).waits() == old(self).waits() + Seq::new(
                final(self).events_since(*old(self)).len(),
                |i: int| (0nat, 0nat),
            ),
            final(self).history() == old(self).history() + as_reads(
                final(self).events_since(*old(self)),
            ),
            ({
                let events = final(self).events_since(*old(self));
                let s = stream_from(0, true, transfer_start(old(self).acks()), events);
                match r {
                    Ok(()) => s.stage is Start || (s.stage is Flushing && final(self).reads_left()
                        == 0),
                    Err(Error::Device(_)) => s.stage is Flushing,
                    Err(_) => false,
                }
            }),
    {
        self.flush_for(Ghost(0))
    }

    /// Reads and drops what the line holds already, before a transfer
    /// with room for `room` bytes.
    fn flush_for(&mut self, Ghost(room): Ghost<nat>) -> (r: Result<(), Error<D::Error>>)
        ensures
            final(self).accounted(*old(self), r),
            (r matches Err(Error::Device(_))) ==> final(self).faults().last().tried == Attempt::Read(
                (0nat, 0nat),
            ),
            final(self).later_than(*old(self)),
            final(self).sent() == old(self).sent(),
            final(self).written() == old(self).written(),
            final(self).waits() == old(self).waits() + Seq::new(
                final(self).events_since(*old(self)).len(),
                |i: int| (0nat, 0nat),
            ),
            final(self).history() == old(self).history() + as_reads(
                final(self).events_since(*old(self)),
            ),
            ({
                let events = final(self).events_since(*old(self));
                let s = stream_from(room, true, transfer_start(old(self).acks()), events);
                &&& s.data.len() == 0
                &&& s.last is None
                &&& s.acks == old(self).acks()
                &&& s.stage is Flushing ==> s.replies == Seq::<u8>::empty()
                &&& stream_trace(room, true, transfer_start(old(self).acks()), events) == as_reads(
                    events,
                ) + as_sends(s.replies)
                &&& stream_waits(
                    room,
                    true,
                    transfer_start(old(self).acks()),
                    events,
                    events.len(),
                ) == Seq::new(events.len(), |i: int| (0nat, 0nat))
                &&& match r {
                    Ok(()) => (s.stage is Start && s.replies == seq![CHECKSUM_REQUEST]) || (s.stage
                        is Flushing && final(self).reads_left() == 0),
                    Err(Error::Device(_)) => s.stage is Flushing,
                    Err(_) => false,
                }
            }),
    {
        let ghost mut ev = Seq::<Option<u8>>::empty();
        let ghost start = transfer_start(self.acks());
        proof {
            assert(self.events() =~= old(self).events() + ev);
            assert(self.sent().is_prefix_of(self.sent()));
            assert(self.waits() =~= old(self).waits() + Seq::new(0, |i: int| (0nat, 0nat)));
            assert(self.history() =~= old(self).history() + as_reads(ev));
            assert(stream_trace(room, true, start, ev) =~= as_reads(ev));
            assert(stream_waits(room, true, start, ev, 0) =~= Seq::new(0, |i: int| (0nat, 0nat)));
            assert(as_sends(Seq::<u8>::empty()) =~= Seq::<Action>::empty());
            assert(as_reads(ev) + Seq::<Action>::empty() =~= as_reads(ev));
        }
        while self.dev.remaining_reads() > 0
            invariant
                self.accounted(*old(self), Ok::<(), Error<D::Error>>(())),
                old(self).events().len() <= self.events().len(),
                self.sent() == old(self).sent(),
                self.history() == old(self).history() + as_reads(ev),
                stream_trace(room, true, start, ev) == as_reads(ev),
                stream_waits(room, true, start, ev, ev.len()) == Seq::new(
                    ev.len(),
                    |i: int| (0nat, 0nat),
                ),
                self.written() == old(self).written(),
                self.acks() == old(self).acks(),
                self.reads_left() <= old(self).reads_left(),
                self.events() == old(self).events() + ev,
                self.waits() == old(self).waits() + Seq::new(ev.len(), |i: int| (0nat, 0nat)),
                start == transfer_start(old(self).acks()),
                stream_from(room, true, start, ev) == start,
            decreases self.reads_left(),
        {
            let r = self.receive_byte(Duration::zero());
            proof {
                let e = old(self).events();
                let zero = (0nat, 0nat);
                let nothing = Seq::<u8>::empty();
                let was = ev;
                assert(as_sends(nothing) =~= Seq::<Action>::empty());
                assert(start.replies.skip(0) =~= nothing);
                assert(start.replies.push(CHECKSUM_REQUEST).skip(0) =~= seq![CHECKSUM_REQUEST]);
                assert(start.replies.push(CHECKSUM_REQUEST) =~= seq![CHECKSUM_REQUEST]);
                match r {
                    Ok(b) => {
                        lemma_stream_trace_push(room, true, start, was, Some(b));
                        lemma_stream_waits_push(room, true, start, was, Some(b));
                        assert(as_reads(was).push(Action::Read(Some(b))) + as_sends(nothing)
                            =~= as_reads(was.push(Some(b))));
                        assert(Seq::new(was.len(), |i: int| zero).push(zero) =~= Seq::new(
                            was.len() + 1,
                            |i: int| zero,
                        ));
                    },
                    Err(Error::TimedOut) => {
                        lemma_stream_trace_push(room, true, start, was, None);
                        lemma_stream_waits_push(room, true, start, was, None);
                        assert(as_reads(was).push(Action::Read(None)) =~= as_reads(was.push(None)));
                        assert(Seq::new(was.len(), |i: int| zero).push(zero) =~= Seq::new(
                            was.len() + 1,
                            |i: int| zero,
                        ));
                    },
                    _ => {},
                }
                assert((old(self).waits() + Seq::new(ev.len(), |i: int| zero)).push(zero) =~= old(self).waits() + Seq::new(ev.len() + 1, |i: int| zero));
                match r {
                    Ok(b) => {
                        assert((e + ev).push(Some(b)) =~= e + ev.push(Some(b)));
                        assert((old(self).history() + as_reads(ev)).push(Action::Read(Some(b)))
                            =~= old(self).history() + as_reads(ev.push(Some(b))));
                        lemma_stream_push(room, true, start, ev, Some(b));
                        ev = ev.push(Some(b));
                    },
                    Err(Error::TimedOut) => {
                        assert((e + ev).push(None) =~= e + ev.push(None));
                        assert((old(self).history() + as_reads(ev)).push(Action::Read(None))
                            =~= old(self).history() + as_reads(ev.push(None)));
                        lemma_stream_push(room, true, start, ev, None);
                        ev = ev.push(None);
                    },
                    _ => {},
                }
                assert((e + ev).skip(e.len() as int) =~= ev);
                assert(e.is_prefix_of(e + ev));
                assert(Seq::<u8>::empty().push(CHECKSUM_REQUEST) =~= seq![CHECKSUM_REQUEST]);
            }
            match r {
                Ok(_) => {},
                Err(Error::TimedOut) => {
                    return Ok(());
                },
                Err(e) => {
                    return Err(e);
                },
            }
        }
        proof {
            let e = old(self).events();
            assert((e + ev).skip(e.len() as int) =~= ev);
            assert(e.is_prefix_of(e + ev));
        }
        Ok(())
    }

    /// Reads the 132 bytes of a packet behind its `SOH` into the buffer.
    fn receive_tail(&mut self) -> (r: Result<(), Error<D::Error>>)
        ensures
            final(self).accounted(*old(self), r),
            (r matches Err(Error::Device(_))) ==> final(self).faults().last().tried == Attempt::Read(
                (u64::MAX as nat, 999_999_999nat),
            ),
            final(self).sent() == old(self).sent(),
            final(self).written() == old(self).written(),
            final(self).acks() == old(self).acks(),
            final(self).reads_left() <= old(self).reads_left(),
            ({
                let w = final(self).received().skip(old(self).received().len() as int);
                &&& w.len() <= 132
                &&& final(self).events() == old(self).events() + as_events(w) + (if r matches Err(
                    Error::TimedOut,
                ) {
                    seq![None::<u8>]
                } else {
                    Seq::<Option<u8>>::empty()
                })
                &&& final(self).waits() == old(self).waits() + Seq::new(
                    (final(self).events().len() - old(self).events().len()) as nat,
                    |i: int| (u64::MAX as nat, 999_999_999nat),
                )
                &&& final(self).history() == old(self).history() + as_reads(
                    as_events(w) + (if r matches Err(Error::TimedOut) {
                        seq![None::<u8>]
                    } else {
                        Seq::<Option<u8>>::empty()
                    }),
                )
                &&& match r {
                    Ok(()) => w == final(self).buffer.tail(),
                    Err(Error::TimedOut) => w.len() < 132,
                    Err(Error::Device(_)) => w.len() < 132,
                    Err(_) => false,
                }
            }),
    {
        let mut tail = [0u8; 132];
        let mut i: usize = 0;
        let ghost none = Seq::<Option<u8>>::empty();
        proof {
            assert(self.received() =~= old(self).received() + tail@.take(0));
            assert(self.events() =~= old(self).events() + as_events(tail@.take(0)));
            assert(self.history() =~= old(self).history() + as_reads(as_events(tail@.take(0))));
            assert(self.waits() =~= old(self).waits() + Seq::new(
                0,
                |k: int| (u64::MAX as nat, 999_999_999nat),
            ));
        }
        while i < 132
            invariant
                self.accounted(*old(self), Ok::<(), Error<D::Error>>(())),
                old(self).events().len() <= self.events().len(),
                i <= 132,
                self.sent() == old(self).sent(),
                self.written() == old(self).written(),
                self.acks() == old(self).acks(),
                self.reads_left() <= old(self).reads_left(),
                self.received() == old(self).received() + tail@.take(i as int),
                self.events() == old(self).events() + as_events(tail@.take(i as int)),
                self.history() == old(self).history() + as_reads(as_events(tail@.take(i as int))),
                self.waits() == old(self).waits() + Seq::new(
                    i as nat,
                    |k: int| (u64::MAX as nat, 999_999_999nat),
                ),
            decreases 132 - i,
        {
            let ghost got = tail@.take(i as int);
            let r = self.receive_byte(Duration::max());
            proof {
                let a = old(self).received();
                let e = old(self).events();
                let none = Seq::<Option<u8>>::empty();
                let h = old(self).history();
                assert((a + got).skip(a.len() as int) =~= got);
                assert(e + as_events(got) + none =~= e + as_events(got));
                assert(as_events(got) + none =~= as_events(got));
                assert((h + as_reads(as_events(got))).push(Action::Read(None)) =~= h + as_reads(
                    as_events(got) + seq![None::<u8>],
                ));
                let max = (u64::MAX as nat, 999_999_999nat);
                assert((old(self).waits() + Seq::new(i as nat, |k: int| max)).push(max) =~= old(self).waits() + Seq::new((i + 1) as nat, |k: int| max));
                assert((e + as_events(got)).push(None) =~= e + as_events(got) + seq![None::<u8>]);
            }
            match r {
                Ok(byte) => {
                    let ghost prev = tail@;
                    tail[i] = byte;
                    proof {
                        assert(tail@.take(i + 1) =~= prev.take(i as int).push(byte));
                        assert(self.received() =~= old(self).received() + tail@.take(i + 1));
                        assert(as_events(got.push(byte)) =~= as_events(got).push(Some(byte)));
                        assert(self.history() =~= old(self).history() + as_reads(
                            as_events(tail@.take(i + 1)),
                        ));
                        assert(self.events() =~= old(self).events() + as_events(
                            tail@.take(i + 1),
                        ));
                    }
                },
                Err(e) => {
                    return Err(e);
                },
            }
            i += 1;
        }
        proof {
            let a = old(self).received();
            let e = old(self).events();
            assert(tail@.take(132) =~= tail@);
            assert((a + tail@).skip(a.len() as int) =~= tail@);
            assert(e + as_events(tail@) + none =~= e + as_events(tail@));
            assert(as_events(tail@) + none =~= as_events(tail@));
        }
        self.buffer = Packet::from_tail(&tail);
        Ok(())
    }

    /// Receives one stream of packets: asks for CRC mode, then takes
    /// packets until the sender ends the transfer, writing each block of
    /// 128 bytes into `output` behind the blocks written before.
    ///
    /// What comes of the stream is what `stream_from` makes of the reads
    /// that were made, starting from `stream_start` and without a second
    /// try: the blocks in `output`, the bytes sent, and the result. The
    /// first byte of a packet is waited for `RESPONSE_MILLIS`, every other
    /// byte without limit.
    ///
    /// A call at which the line fails is the last one made of it: the
    /// error is the line's, and what was asked of the line is what
    /// `stream_call` says. Every read asked of the line uses up one of
    /// the reads that were left.
    #[verifier::rlimit(100)]
    pub fn receive(&mut self, output: &mut [u8]) -> (r: Result<(), Error<D::Error>>)
        requires
            old(self).written() <= old(output)@.len(),
        ensures
            final(self).accounted(*old(self), r),
            final(self).later_than(*old(self)),
            old(self).reads_left() > 0 && !(r matches Err(Error::Device(_))) ==> final(self).reads_left() < old(self).reads_left(),
            final(output)@.len() == old(output)@.len(),
            final(self).written() <= final(output)@.len(),
            final(self).waits() == old(self).waits() + stream_waits(
                (old(output)@.len() - old(self).written()) as nat,
                false,
                stream_start(old(self).acks()),
                final(self).events_since(*old(self)),
                final(self).events_since(*old(self)).len(),
            ),
            ({
                let room = (old(output)@.len() - old(self).written()) as nat;
                let start = stream_start(old(self).acks());
                let events = final(self).events_since(*old(self));
                let s = stream_from(room, false, start, events);
                let trace = as_sends(seq![CHECKSUM_REQUEST]) + stream_trace(
                    room,
                    false,
                    start,
                    events,
                );
                &&& !(s.stage is Overrun)
                &&& final(self).written() == old(self).written() + s.data.len()
                &&& final(output)@ == old(output)@.take(old(self).written() as int) + s.data + old(output)@.skip(final(self).written() as int)
                &&& final(self).sent() == old(self).sent() + final(self).sent_since(*old(self))
                &&& final(self).sent_since(*old(self)).is_prefix_of(s.replies)
                &&& final(self).history() == old(self).history() + final(self).history_since(
                    *old(self),
                )
                &&& final(self).history_since(*old(self)).is_prefix_of(trace)
                &&& !(r matches Err(Error::Device(_))) ==> final(self).sent() == old(self).sent()
                    + s.replies && final(self).history_since(*old(self)) == trace
                &&& (r matches Err(Error::Device(_))) ==> final(self).faults().last().tried
                    == stream_call(s, final(self).sent_since(*old(self)).len() as int)
                &&& match r {
                    Ok(()) => s.stage is Done,
                    Err(Error::Device(_)) => !(s.stage is Failed),
                    Err(e) => s.stage == Stage::Failed(failure_of(e)),
                }
            }),
    {
        let size = output.len();
        let ghost first_block = self.written;
        let ghost room = (size - self.written) as nat;
        let ghost start = stream_start(self.acks());
        let ghost request = as_sends(seq![CHECKSUM_REQUEST]);
        let ghost mut ev = Seq::<Option<u8>>::empty();
        let ghost mut s = start;
        proof {
            let e = self.events();
            let h = self.history();
            let a = self.sent();
            let none = Seq::<Action>::empty();
            assert(e =~= e + ev);
            assert((e + ev).skip(e.len() as int) =~= ev);
            assert(e.is_prefix_of(e));
            assert(self.waits() =~= self.waits() + stream_waits(room, false, start, ev, 0));
            assert(a.is_prefix_of(a));
            assert(a =~= a + a.skip(a.len() as int));
            assert(a.skip(a.len() as int).is_prefix_of(start.replies));
            assert(h =~= h + h.skip(h.len() as int));
            assert(h.skip(h.len() as int).is_prefix_of(request + none));
            assert(output@ =~= output@.take(first_block as int) + Seq::<u8>::empty() + output@.skip(
                first_block as int,
            ));
        }
        match self.transmit(CHECKSUM_REQUEST) {
            Ok(()) => {},
            Err(e) => {
                return Err(e);
            },
        }
        proof {
            assert(old(self).sent().push(CHECKSUM_REQUEST) =~= old(self).sent() + start.replies);
            assert(old(self).sent().is_prefix_of(self.sent()));
            assert(old(self).history().push(Action::Sent(CHECKSUM_REQUEST)) =~= old(self).history()
                + (request + Seq::<Action>::empty()));
        }
        let mut id: Option<u8> = None;
        let mut ended = false;
        let mut read_once = false;
        while !ended
            invariant
                self.accounted(*old(self), Ok::<(), Error<D::Error>>(())),
                old(self).events().len() <= self.events().len(),
                read_once && old(self).reads_left() > 0 ==> self.reads_left() < old(self).reads_left(),
                self.reads_left() <= old(self).reads_left(),
                ended ==> read_once,
                size == output@.len(),
                output@.len() == old(output)@.len(),
                first_block == old(self).written(),
                room == size - first_block,
                start == stream_start(old(self).acks()),
                request == as_sends(seq![CHECKSUM_REQUEST]),
                self.acks() == old(self).acks(),
                s.acks == self.acks(),
                self.events() == old(self).events() + ev,
                self.waits() == old(self).waits() + stream_waits(room, false, start, ev, ev.len()),
                self.history() == old(self).history() + (request + stream_trace(
                    room,
                    false,
                    start,
                    ev,
                )),
                s == stream_from(room, false, start, ev),
                s.stage == (if ended {
                    Stage::Ending
                } else {
                    Stage::Start
                }),
                s.last == id,
                self.written == first_block + s.data.len(),
                self.written <= size,
                output@ == old(output)@.take(first_block as int) + s.data + old(output)@.skip(
                    self.written as int,
                ),
                self.sent() == old(self).sent() + s.replies,
            decreases self.reads_left() + (if ended { 0nat } else { 1nat }),
        {
            let ghost before = s;
            let ghost ev0 = ev;
            let r = self.receive_byte(Duration::from_millis(RESPONSE_MILLIS));
            proof {
                self.lemma_read_one(*old(self), room, start, request, ev0, r);
                match r {
                    Ok(b) => {
                        ev = ev.push(Some(b));
                    },
                    Err(Error::TimedOut) => {
                        ev = ev.push(None);
                    },
                    _ => {},
                }
                s = stream_from(room, false, start, ev);
            }
            let first = match r {
                Ok(byte) => byte,
                Err(Error::TimedOut) => {
                    return Err(Error::NoResponse);
                },
                Err(e) => {
                    return Err(e);
                },
            };
            read_once = true;
            let reply: Option<u8> = if first == END_OF_TRANSMISSION {
                ended = true;
                Some(ACK)
            } else if first != START_OF_HEADER {
                return Err(Error::BadPacketType(first));
            } else {
                let ghost mid = *self;
                let ghost ev1 = ev;
                let r = self.receive_tail();
                let ghost w = self.received().skip(mid.received().len() as int);
                let ghost hushed = r matches Err(Error::TimedOut);
                proof {
                    self.lemma_read_tail(mid, *old(self), room, start, request, ev1, w, hushed);
                    ev = ev1 + (as_events(w) + (if hushed {
                        seq![None::<u8>]
                    } else {
                        Seq::<Option<u8>>::empty()
                    }));
                    s = stream_from(room, false, start, ev);
                    if r is Ok {
                        self.buffer.lemma_sizes();
                        let p = self.buffer;
                        assert(w[0] == p.id() && w[1] == p.id_inverted());
                        assert(w.subrange(2, 130) =~= p.data());
                        assert(w.subrange(130, 132) =~= p.crc());
                    }
                }
                match r {
                    Ok(()) => {},
                    Err(e) => {
                        return Err(e);
                    },
                }
                if !self.buffer.is_intact() {
                    Some(NAK)
                } else {
                    let number = self.buffer.number();
                    if !id_follows(id, number) {
                        return Err(Error::BadPacketId);
                    }
                    if size - self.written < BLOCK_SIZE {
                        return Err(Error::Overflow);
                    }
                    id = Some(number);
                    crate::recv::copy_into(
                        output,
                        self.written,
                        self.buffer.payload().as_slice(),
                        BLOCK_SIZE,
                    );
                    self.written = self.written + BLOCK_SIZE;
                    proof {
                        let block = self.buffer.data();
                        assert(block.take(128) =~= block);
                        assert(output@ =~= old(output)@.take(first_block as int) + (before.data
                            + block) + old(output)@.skip(self.written as int));
                    }
                    if self.acks {
                        Some(ACK)
                    } else {
                        None
                    }
                }
            };
            let ghost read = *self;
            match reply {
                Some(byte) => {
                    let r = self.transmit(byte);
                    proof {
                        self.lemma_replied_one(read, *old(self), before.replies, byte, r);
                    }
                    match r {
                        Ok(()) => {},
                        Err(e) => {
                            return Err(e);
                        },
                    }
                },
                None => {
                    proof {
                        assert(before.replies.skip(before.replies.len() as int) =~= Seq::<
                            u8,
                        >::empty());
                    }
                },
            }
        }
        let ghost before = s;
        let ghost ev0 = ev;
        let r = self.receive_byte(Duration::max());
        proof {
            self.lemma_read_one(*old(self), room, start, request, ev0, r);
            match r {
                Ok(b) => {
                    ev = ev.push(Some(b));
                },
                Err(Error::TimedOut) => {
                    ev = ev.push(None);
                },
                _ => {},
            }
            s = stream_from(room, false, start, ev);
        }
        let last = match r {
            Ok(byte) => byte,
            Err(e) => {
                return Err(e);
            },
        };
        if last != END_OF_TRANSMISSION_BLOCK {
            return Err(Error::BadPacketType(last));
        }
        let ghost read = *self;
        let r = self.transmit(ACK);
        proof {
            self.lemma_replied_one(read, *old(self), before.replies, ACK, r);
        }
        r
    }

    /// Receives a file into `output` and returns how many bytes were
    /// written: drops what the line holds already, then receives streams
    /// of packets as `receive` does, one behind the other in `output`,
    /// until one comes to its end. A stream in which no packet starts in
    /// time is followed by another while reads are left; with none left
    /// the transfer ends with `NoResponse`.
    ///
    /// What comes of the transfer is what `stream_from` makes of the
    /// reads that were made, starting from `transfer_start` and trying
    /// again: the blocks in `output`, the result, the bytes sent, and the
    /// wait of each read. What went over the line is `stream_trace`:
    /// every answer, and every request for a stream, stands behind the
    /// read that caused it and before the next read. A transfer that
    /// gives up for want of reads has not sent the request for the
    /// stream that it did not begin. If the line failed, what was sent
    /// and what went over the line are the start of that; the failed call
    /// was the last one made of the line, and the error is the line's.
    #[verifier::rlimit(60)]
    pub fn transfer(&mut self, output: &mut [u8]) -> (r: Result<usize, Error<D::Error>>)
        requires
            old(self).written() == 0,
        ensures
            final(self).accounted(*old(self), r),
            final(output)@.len() == old(output)@.len(),
            final(self).later_than(*old(self)),
            ({
                let capacity = old(output)@.len();
                let start = transfer_start(old(self).acks());
                let events = final(self).events_since(*old(self));
                let t = stream_from(capacity, true, start, events);
                let trace = stream_trace(capacity, true, start, events);
                &&& transfer_outcome(old(self).acks(), old(output)@, final(output)@, events, r)
                &&& final(self).written() == t.data.len()
                &&& final(self).waits() == old(self).waits() + stream_waits(
                    capacity,
                    true,
                    start,
                    events,
                    events.len(),
                )
                &&& final(self).sent() == old(self).sent() + final(self).sent_since(*old(self))
                &&& final(self).sent_since(*old(self)).is_prefix_of(t.replies)
                &&& final(self).history() == old(self).history() + final(self).history_since(
                    *old(self),
                )
                &&& final(self).history_since(*old(self)).is_prefix_of(trace)
                &&& !(r matches Err(Error::Device(_))) ==> if request_unsent(t, r) {
                    &&& final(self).sent_since(*old(self)) == t.replies.drop_last()
                    &&& final(self).history_since(*old(self)) == trace.drop_last()
                } else {
                    &&& final(self).sent_since(*old(self)) == t.replies
                    &&& final(self).history_since(*old(self)) == trace
                }
                &&& (r matches Err(Error::Device(_))) ==> final(self).faults().last().tried
                    == stream_call(t, final(self).sent().len() - old(self).sent().len())
                &&& (r matches Err(Error::NoResponse)) ==> final(self).reads_left() == 0
            }),
    {
        let ghost capacity = output@.len() as nat;
        let ghost acks = self.acks();
        let ghost start = transfer_start(acks);
        let r = self.flush_for(Ghost(capacity));
        proof {
            let e = old(self).events();
            let events = self.events_since(*old(self));
            let t = stream_from(capacity, true, start, events);
            let trace = stream_trace(capacity, true, start, events);
            let reads = as_reads(events);
            assert(output@ =~= Seq::<u8>::empty() + output@.skip(0));
            assert(self.sent() =~= old(self).sent() + Seq::<u8>::empty());
            assert(old(self).sent().is_prefix_of(self.sent()));
            assert(self.sent().is_prefix_of(old(self).sent() + t.replies)) by {
                assert(self.sent() =~= (old(self).sent() + t.replies).subrange(
                    0,
                    self.sent().len() as int,
                ));
            }
            assert(old(self).history().is_prefix_of(self.history())) by {
                assert(old(self).history() =~= self.history().subrange(
                    0,
                    old(self).history().len() as int,
                ));
            }
            assert(self.history().is_prefix_of(old(self).history() + trace)) by {
                assert(self.history() =~= (old(self).history() + trace).subrange(
                    0,
                    self.history().len() as int,
                ));
            }
            lemma_since(old(self).sent(), self.sent(), t.replies);
            lemma_since(old(self).history(), self.history(), trace);
            assert((old(self).waits() + Seq::new(events.len(), |i: int| (0nat, 0nat))).skip(
                old(self).waits().len() as int,
            ) =~= Seq::new(events.len(), |i: int| (0nat, 0nat)));
            if t.stage is Start {
                assert(t.replies.drop_last() =~= Seq::<u8>::empty());
                assert(as_sends(t.replies) =~= Seq::<Action>::empty().push(
                    Action::Sent(CHECKSUM_REQUEST),
                ));
                assert(trace.drop_last() =~= reads);
                assert((old(self).history() + reads).skip(old(self).history().len() as int)
                    =~= reads);
            } else {
                assert(as_sends(t.replies) =~= Seq::<Action>::empty());
                assert(trace =~= reads);
                assert((old(self).history() + reads).skip(old(self).history().len() as int)
                    =~= reads);
                assert(self.sent_since(*old(self)) =~= t.replies);
            }
        }
        match r {
            Ok(()) => {},
            Err(e) => {
                return Err(e);
            },
        }
        if self.remaining_reads() == 0 {
            return Err(Error::NoResponse);
        }
        while self.remaining_reads() > 0
            invariant
                self.accounted(*old(self), Ok::<(), Error<D::Error>>(())),
                old(self).events().len() <= self.events().len(),
                output@.len() == old(output)@.len(),
                capacity == output@.len(),
                acks == old(self).acks(),
                start == transfer_start(acks),
                self.later_than(*old(self)),
                self.written() <= output@.len(),
                self.acks() == acks,
                ({
                    let events = self.events_since(*old(self));
                    let t = stream_from(capacity, true, start, events);
                    let trace = stream_trace(capacity, true, start, events);
                    &&& self.events() == old(self).events() + events
                    &&& t.acks == acks
                    &&& t.stage is Start
                    &&& t.last is None
                    &&& t.data.len() == self.written()
                    &&& output@ == t.data + old(output)@.skip(t.data.len() as int)
                    &&& t.replies.len() > 0 && t.replies.last() == CHECKSUM_REQUEST
                    &&& trace.len() > 0 && trace.last() == Action::Sent(CHECKSUM_REQUEST)
                    &&& self.sent() == old(self).sent() + t.replies.drop_last()
                    &&& self.history() == old(self).history() + trace.drop_last()
                    &&& self.waits() == old(self).waits() + stream_waits(
                        capacity,
                        true,
                        start,
                        events,
                        events.len(),
                    )
                }),
            decreases self.reads_left(),
        {
            let ghost before = *self;
            let ghost out_before = output@;
            let ghost had = self.events_since(*old(self));
            let ghost g = stream_from(capacity, true, start, had);
            let r = self.receive(output);
            proof {
                let since = self.events_since(before);
                let e0 = old(self).events();
                assert(self.events() =~= e0 + (had + since)) by {
                    assert(self.events() =~= before.events() + since);
                }
                assert((e0 + (had + since)).skip(e0.len() as int) =~= had + since);
                assert(e0.is_prefix_of(self.events()));
                let room = (capacity - g.data.len()) as nat;
                let s = stream_from(room, false, stream_start(acks), since);
                lemma_stream_within(capacity, g, since);
                lemma_transfer_stream(
                    capacity,
                    acks,
                    had,
                    since,
                    (old(self).sent(), before.sent(), self.sent()),
                    (old(self).history(), before.history(), self.history()),
                    (old(self).waits(), before.waits(), self.waits()),
                    r matches Err(Error::Device(_)),
                    self.faults().last().tried,
                );
                let t = stream_from(capacity, true, start, had + since);
                let trace = stream_trace(capacity, true, start, had + since);
                assert(out_before.take(g.data.len() as int) =~= g.data);
                assert(output@ =~= t.data + old(output)@.skip(t.data.len() as int)) by {
                    assert(out_before.skip(t.data.len() as int) =~= old(output)@.skip(
                        t.data.len() as int,
                    ));
                }
                assert(old(self).sent().is_prefix_of(self.sent()));
                lemma_since(old(self).sent(), self.sent(), t.replies);
                lemma_since(old(self).history(), self.history(), trace);
                if !(r matches Err(Error::Device(_))) {
                    if s.stage == Stage::Failed(Failure::NoResponse) {
                        lemma_since(old(self).sent(), self.sent(), t.replies.drop_last());
                        lemma_since(old(self).history(), self.history(), trace.drop_last());
                    } else {
                        assert(s.stage is Done || s.stage == Stage::Failed(
                            failure_of(r->Err_0),
                        ));
                    }
                }
            }
            match r {
                Ok(()) => {
                    return Ok(self.bytes_written());
                },
                Err(Error::NoResponse) => {},
                Err(e) => {
                    return Err(e);
                },
            }
        }
        proof {
            let events = self.events_since(*old(self));
            let t = stream_from(capacity, true, start, events);
            let trace = stream_trace(capacity, true, start, events);
            assert(self.sent().is_prefix_of(old(self).sent() + t.replies)) by {
                assert(self.sent() =~= (old(self).sent() + t.replies).subrange(
                    0,
                    self.sent().len() as int,
                ));
            }
            assert(self.history().is_prefix_of(old(self).history() + trace)) by {
                assert(self.history() =~= (old(self).history() + trace).subrange(
                    0,
                    self.history().len() as int,
                ));
            }
            assert(old(self).history().is_prefix_of(self.history())) by {
                assert(old(self).history() =~= self.history().subrange(
                    0,
                    old(self).history().len() as int,
                ));
            }
            lemma_since(old(self).sent(), self.sent(), t.replies);
            lemma_since(old(self).history(), self.history(), trace);
            lemma_since(old(self).sent(), self.sent(), t.replies.drop_last());
            lemma_since(old(self).history(), self.history(), trace.drop_last());
        }
        Err(Error::NoResponse)
    }

    /// One read of a stream: the read stands in the line's history behind
    /// what went before, and what is to be sent because of it is the
    /// difference in what the stream holds as sent.
    #[verifier::rlimit(40)]
    proof fn lemma_read_one(
        self,
        before: Self,
        room: nat,
        start: Stream,
        request: Seq<Action>,
        events: Seq<Option<u8>>,
        r: Result<u8, Error<D::Error>>,
    )
        requires
            self.events() == before.events() + (match r {
                Ok(b) => events.push(Some(b)),
                Err(Error::TimedOut) => events.push(None),
                _ => events,
            }),
            self.history() == (match r {
                Ok(b) => (before.history() + (request + stream_trace(
                    room,
                    false,
                    start,
                    events,
                ))).push(Action::Read(Some(b))),
                Err(Error::TimedOut) => (before.history() + (request + stream_trace(
                    room,
                    false,
                    start,
                    events,
                ))).push(Action::Read(None)),
                _ => before.history() + (request + stream_trace(room, false, start, events)),
            }),
            self.sent() == before.sent() + stream_from(room, false, start, events).replies,
            self.waits() == (match r {
                Err(Error::Device(_)) => before.waits() + stream_waits(
                    room,
                    false,
                    start,
                    events,
                    events.len(),
                ),
                _ => (before.waits() + stream_waits(room, false, start, events, events.len())).push(
                    stream_wait(stream_from(room, false, start, events)),
                ),
            }),
            r is Ok || r matches Err(Error::TimedOut) || r matches Err(Error::Device(_)),
        ensures
            ({
                let now = match r {
                    Ok(b) => events.push(Some(b)),
                    Err(Error::TimedOut) => events.push(None),
                    _ => events,
                };
                let had = stream_from(room, false, start, events);
                let has = stream_from(room, false, start, now);
                let trace = request + stream_trace(room, false, start, now);
                &&& self.waits() == before.waits() + stream_waits(room, false, start, now, now.len())
                &&& self.events() == before.events() + now
                &&& self.events_since(before) == now
                &&& before.events().is_prefix_of(self.events())
                &&& had.replies.is_prefix_of(has.replies)
                &&& self.sent() == before.sent() + self.sent_since(before)
                &&& self.sent_since(before) == had.replies
                &&& self.history() == before.history() + self.history_since(before)
                &&& self.history_since(before) + as_sends(
                    has.replies.skip(had.replies.len() as int),
                ) == trace
                &&& self.history_since(before).is_prefix_of(trace)
                &&& (r is Ok ==> has == stream_step(room, false, had, Some(r->Ok_0)))
                &&& (r matches Err(Error::TimedOut) ==> has == stream_step(room, false, had, None))
            }),
    {
        let e = before.events();
        let h = before.history();
        let a = before.sent();
        let had = stream_from(room, false, start, events);
        let t = stream_trace(room, false, start, events);
        let none = Seq::<u8>::empty();
        assert((a + had.replies).skip(a.len() as int) =~= had.replies);
        assert(as_sends(none) =~= Seq::<Action>::empty());
        assert(had.replies.skip(had.replies.len() as int) =~= none);
        assert(had.replies.is_prefix_of(had.replies));
        let w0 = before.waits();
        let had_waits = stream_waits(room, false, start, events, events.len());
        assert((w0 + had_waits).push(stream_wait(had)) =~= w0 + had_waits.push(stream_wait(had)));
        match r {
            Ok(b) => {
                let now = events.push(Some(b));
                lemma_stream_waits_push(room, false, start, events, Some(b));
                lemma_stream_push(room, false, start, events, Some(b));
                lemma_stream_trace_push(room, false, start, events, Some(b));
                let has = stream_from(room, false, start, now);
                let delta = as_sends(has.replies.skip(had.replies.len() as int));
                assert((e + now).skip(e.len() as int) =~= now);
                assert(e.is_prefix_of(e + now));
                let part = request + t.push(Action::Read(Some(b)));
                assert((h + (request + t)).push(Action::Read(Some(b))) =~= h + part);
                assert((h + part).skip(h.len() as int) =~= part);
                assert(part + delta =~= request + (t.push(Action::Read(Some(b))) + delta));
                assert(part.is_prefix_of(part + delta));
            },
            Err(Error::TimedOut) => {
                let now = events.push(None);
                lemma_stream_waits_push(room, false, start, events, None);
                lemma_stream_push(room, false, start, events, None);
                lemma_stream_trace_push(room, false, start, events, None);
                let has = stream_from(room, false, start, now);
                let delta = as_sends(has.replies.skip(had.replies.len() as int));
                assert((e + now).skip(e.len() as int) =~= now);
                assert(e.is_prefix_of(e + now));
                let part = request + t.push(Action::Read(None));
                assert((h + (request + t)).push(Action::Read(None)) =~= h + part);
                assert((h + part).skip(h.len() as int) =~= part);
                assert(part + delta =~= request + (t.push(Action::Read(None)) + delta));
                assert(part.is_prefix_of(part + delta));
            },
            _ => {
                assert((e + events).skip(e.len() as int) =~= events);
                assert(e.is_prefix_of(e + events));
                let part = request + t;
                assert((h + part).skip(h.len() as int) =~= part);
                assert(part + Seq::<Action>::empty() =~= part);
                assert(part.is_prefix_of(part));
            },
        }
    }

    /// The reads of a packet behind its `SOH`: they stand in the line's
    /// history behind what went before, and what is to be sent because
    /// of the packet is the difference in what the stream holds as sent.
    #[verifier::rlimit(30)]
    proof fn lemma_read_tail(
        self,
        mid: Self,
        before: Self,
        room: nat,
        start: Stream,
        request: Seq<Action>,
        events: Seq<Option<u8>>,
        w: Seq<u8>,
        hushed: bool,
    )
        requires
            stream_from(room, false, start, events).stage == (Stage::Tail { tail: Seq::empty() }),
            w.len() <= 132,
            hushed ==> w.len() < 132,
            mid.events() == before.events() + events,
            mid.history() == before.history() + (request + stream_trace(
                room,
                false,
                start,
                events,
            )),
            mid.waits() == before.waits() + stream_waits(room, false, start, events, events.len()),
            self.events() == mid.events() + as_events(w) + (if hushed {
                seq![None::<u8>]
            } else {
                Seq::<Option<u8>>::empty()
            }),
            self.history() == mid.history() + as_reads(
                as_events(w) + (if hushed {
                    seq![None::<u8>]
                } else {
                    Seq::<Option<u8>>::empty()
                }),
            ),
            self.waits() == mid.waits() + Seq::new(
                (self.events().len() - mid.events().len()) as nat,
                |i: int| (u64::MAX as nat, 999_999_999nat),
            ),
            self.sent() == before.sent() + stream_from(room, false, start, events).replies,
        ensures
            ({
                let more = as_events(w) + (if hushed {
                    seq![None::<u8>]
                } else {
                    Seq::<Option<u8>>::empty()
                });
                let now = events + more;
                let had = stream_from(room, false, start, events);
                let has = stream_from(room, false, start, now);
                let trace = request + stream_trace(room, false, start, now);
                &&& self.events() == before.events() + now
                &&& self.events_since(before) == now
                &&& before.events().is_prefix_of(self.events())
                &&& self.waits() == before.waits() + stream_waits(
                    room,
                    false,
                    start,
                    now,
                    now.len(),
                )
                &&& had.replies.is_prefix_of(has.replies)
                &&& self.sent() == before.sent() + self.sent_since(before)
                &&& self.sent_since(before) == had.replies
                &&& self.history() == before.history() + self.history_since(before)
                &&& self.history_since(before) + as_sends(
                    has.replies.skip(had.replies.len() as int),
                ) == trace
                &&& self.history_since(before).is_prefix_of(trace)
                &&& has == (if hushed {
                    stream_failed(had, Failure::TimedOut)
                } else if w.len() < 132 {
                    Stream { stage: Stage::Tail { tail: w }, ..had }
                } else {
                    take_packet(room, had, w)
                })
            }),
    {
        let more = as_events(w) + (if hushed {
            seq![None::<u8>]
        } else {
            Seq::<Option<u8>>::empty()
        });
        let now = events + more;
        let e = before.events();
        let h = before.history();
        let a = before.sent();
        let had = stream_from(room, false, start, events);
        let has = stream_from(room, false, start, now);
        let t = stream_trace(room, false, start, events);
        lemma_stream_waits_tail(room, false, start, events, w, hushed);
        lemma_stream_trace_tail(room, false, start, events, w, hushed);
        lemma_stream_tail(room, false, had, w);
        lemma_stream_concat(room, false, start, events, as_events(w));
        if hushed {
            lemma_stream_push(room, false, start, events + as_events(w), None);
            assert((events + as_events(w)).push(None) =~= now);
        } else {
            assert(events + as_events(w) =~= now);
        }
        let delta = as_sends(has.replies.skip(had.replies.len() as int));
        let part = request + (t + as_reads(more));
        assert(self.events() =~= e + now);
        assert((e + now).skip(e.len() as int) =~= now);
        assert(e.is_prefix_of(e + now));
        assert(self.history() =~= h + part);
        assert((h + part).skip(h.len() as int) =~= part);
        assert(part + delta =~= request + (t + as_reads(more) + delta));
        assert(part.is_prefix_of(part + delta));
        assert((a + had.replies).skip(a.len() as int) =~= had.replies);
        let max = (u64::MAX as nat, 999_999_999nat);
        let had_waits = stream_waits(room, false, start, events, events.len());
        assert(before.waits() + had_waits + Seq::new(more.len(), |i: int| max)
            =~= before.waits() + (had_waits + Seq::new(more.len(), |i: int| max)));
    }

    /// One byte sent in answer: it stands behind the reads that caused it.
    #[verifier::rlimit(40)]
    proof fn lemma_replied_one(
        self,
        read: Self,
        before: Self,
        had: Seq<u8>,
        byte: u8,
        r: Result<(), Error<D::Error>>,
    )
        requires
            read.sent() == before.sent() + had,
            read.history() == before.history() + read.history_since(before),
            match r {
                Ok(()) => self.sent() == read.sent().push(byte) && self.history()
                    == read.history().push(Action::Sent(byte)),
                Err(_) => self.sent() == read.sent() && self.history() == read.history(),
            },
        ensures
            self.sent() == before.sent() + self.sent_since(before),
            self.sent_since(before).is_prefix_of(had.push(byte)),
            r is Ok ==> self.sent_since(before) == had.push(byte),
            r is Ok ==> self.sent() == before.sent() + had.push(byte),
            before.sent().is_prefix_of(self.sent()),
            self.history() == before.history() + self.history_since(before),
            self.history_since(before).is_prefix_of(
                read.history_since(before) + as_sends(seq![byte]),
            ),
            r is Ok ==> self.history_since(before) == read.history_since(before) + as_sends(
                seq![byte],
            ),
            (had.push(byte)).skip(had.len() as int) == seq![byte],
    {
        let a = before.sent();
        let h = before.history();
        let part = read.history_since(before);
        assert((had.push(byte)).skip(had.len() as int) =~= seq![byte]);
        assert((a + had).skip(a.len() as int) =~= had);
        assert((a + had).push(byte) =~= a + had.push(byte));
        assert((a + had.push(byte)).skip(a.len() as int) =~= had.push(byte));
        assert(had.is_prefix_of(had.push(byte)));
        assert(a.is_prefix_of(a + had));
        assert(a.is_prefix_of(a + had.push(byte)));
        assert((h + part).push(Action::Sent(byte)) =~= h + (part + as_sends(seq![byte])));
        assert((h + (part + as_sends(seq![byte]))).skip(h.len() as int) =~= part + as_sends(
            seq![byte],
        ));
        assert((h + part).skip(h.len() as int) =~= part);
        assert(part.is_prefix_of(part + as_sends(seq![byte])));
    }
}

/// A stream on its own and the same stream as part of a transfer that
/// tries again: from a transfer `g` that waits for a packet to start, the
/// same reads take the same blocks, behind those that `g` holds, and come
/// to the same end, but that where the stream alone gives up for want of
/// a response the transfer begins a new stream.
pub proof fn lemma_stream_within(capacity: nat, g: Stream, events: Seq<Option<u8>>)
    requires
        g.stage is Start,
        g.last is None,
        g.data.len() <= capacity,
    ensures
        ({
            let s = stream_from(
                (capacity - g.data.len()) as nat,
                false,
                stream_start(g.acks),
                events,
            );
            let t = stream_from(capacity, true, g, events);
            s.stage is Overrun || {
                &&& t.acks == g.acks
                &&& t.data == g.data + s.data
                &&& if s.stage == Stage::Failed(Failure::NoResponse) {
                    t.stage is Start && t.last is None
                } else {
                    t.stage == s.stage && t.last == s.last
                }
            }
        }),
    decreases events.len(),
{
    let room = (capacity - g.data.len()) as nat;
    if events.len() == 0 {
        assert(g.data + Seq::<u8>::empty() =~= g.data);
    } else {
        let front = events.drop_last();
        lemma_stream_within(capacity, g, front);
        let sp = stream_from(room, false, stream_start(g.acks), front);
        let tp = stream_from(capacity, true, g, front);
        let s = stream_step(room, false, sp, events.last());
        let t = stream_step(capacity, true, tp, events.last());
        if !(s.stage is Overrun) {
            assert(g.data + sp.data =~= tp.data);
            match sp.stage {
                Stage::Tail { tail } => {
                    match events.last() {
                        Some(b) => {
                            let whole = tail.push(b);
                            assert(g.data + (sp.data + whole.subrange(2, 130)) =~= tp.data
                                + whole.subrange(2, 130));
                        },
                        None => {},
                    }
                },
                _ => {},
            }
        }
    }
}

/// What goes over the line in two runs of reads is what goes over it in
/// the first and then in the second.
pub proof fn lemma_stream_trace_concat(
    room: nat,
    retry: bool,
    s: Stream,
    head: Seq<Option<u8>>,
    tail: Seq<Option<u8>>,
)
    ensures
        stream_trace(room, retry, s, head + tail) == stream_trace(room, retry, s, head)
            + stream_trace(room, retry, stream_from(room, retry, s, head), tail),
    decreases tail.len(),
{
    let mid = stream_from(room, retry, s, head);
    let a = stream_trace(room, retry, s, head);
    if tail.len() == 0 {
        assert(head + tail =~= head);
        assert(a + Seq::<Action>::empty() =~= a);
    } else {
        let front = tail.drop_last();
        assert((head + tail).drop_last() =~= head + front);
        assert((head + tail).last() == tail.last());
        lemma_stream_trace_concat(room, retry, s, head, front);
        lemma_stream_concat(room, retry, s, head, front);
        let b = stream_trace(room, retry, mid, front);
        let before = stream_from(room, retry, mid, front);
        let after = stream_step(room, retry, before, tail.last());
        let sends = as_sends(after.replies.skip(before.replies.len() as int));
        assert((a + b).push(Action::Read(tail.last())) + sends =~= a + (b.push(
            Action::Read(tail.last()),
        ) + sends));
    }
}

/// The reads of two runs wait as those of the first and then those of
/// the second.
pub proof fn lemma_stream_waits_concat(
    room: nat,
    retry: bool,
    s: Stream,
    head: Seq<Option<u8>>,
    tail: Seq<Option<u8>>,
)
    ensures
        stream_waits(room, retry, s, head + tail, head.len() + tail.len()) == stream_waits(
            room,
            retry,
            s,
            head,
            head.len(),
        ) + stream_waits(room, retry, stream_from(room, retry, s, head), tail, tail.len()),
{
    let mid = stream_from(room, retry, s, head);
    let whole = stream_waits(room, retry, s, head + tail, head.len() + tail.len());
    let first = stream_waits(room, retry, s, head, head.len());
    let second = stream_waits(room, retry, mid, tail, tail.len());
    assert forall|i: int| 0 <= i < head.len() + tail.len() implies whole[i] == (first
        + second)[i] by {
        if i < head.len() {
            assert((head + tail).take(i) =~= head.take(i));
        } else {
            let part = tail.take(i - head.len());
            assert((head + tail).take(i) =~= head + part);
            lemma_stream_concat(room, retry, s, head, part);
        }
    }
    assert(whole =~= first + second);
}

/// Whether packets are answered does not change in the course of a
/// transfer.
pub proof fn lemma_stream_acks(room: nat, retry: bool, s: Stream, events: Seq<Option<u8>>)
    ensures
        stream_from(room, retry, s, events).acks == s.acks,
    decreases events.len(),
{
    if events.len() > 0 {
        lemma_stream_acks(room, retry, s, events.drop_last());
    }
}

/// The request for a new stream, where the stream `s` has given up for
/// want of a response, and nothing otherwise.
pub open spec fn asked_again(s: Stream) -> Seq<u8> {
    if s.stage == Stage::Failed(Failure::NoResponse) {
        seq![CHECKSUM_REQUEST]
    } else {
        Seq::empty()
    }
}

/// A stream on its own and the same stream as part of a transfer that
/// tries again send the same bytes in the same places between the reads,
/// and wait the same time for each read, but that where the stream alone
/// gives up for want of a response the transfer asks for a new stream.
/// The request that the stream alone begins with is the last byte that
/// the transfer `g` holds as sent.
pub proof fn lemma_stream_joined(capacity: nat, g: Stream, events: Seq<Option<u8>>)
    requires
        g.stage is Start,
        g.last is None,
        g.data.len() <= capacity,
        g.replies.len() > 0,
        g.replies.last() == CHECKSUM_REQUEST,
        !(stream_from(
            (capacity - g.data.len()) as nat,
            false,
            stream_start(g.acks),
            events,
        ).stage is Overrun),
    ensures
        ({
            let room = (capacity - g.data.len()) as nat;
            let s = stream_from(room, false, stream_start(g.acks), events);
            let t = stream_from(capacity, true, g, events);
            &&& t.replies == g.replies.drop_last() + s.replies + asked_again(s)
            &&& stream_trace(capacity, true, g, events) == stream_trace(
                room,
                false,
                stream_start(g.acks),
                events,
            ) + as_sends(asked_again(s))
            &&& stream_waits(capacity, true, g, events, events.len()) == stream_waits(
                room,
                false,
                stream_start(g.acks),
                events,
                events.len(),
            )
        }),
    decreases events.len(),
{
    let room = (capacity - g.data.len()) as nat;
    let start = stream_start(g.acks);
    let none = Seq::<u8>::empty();
    assert(as_sends(none) =~= Seq::<Action>::empty());
    if events.len() == 0 {
        assert(g.replies =~= g.replies.drop_last() + start.replies + none);
        assert(stream_trace(capacity, true, g, events) =~= stream_trace(room, false, start, events)
            + as_sends(none));
        assert(stream_waits(capacity, true, g, events, 0) =~= stream_waits(
            room,
            false,
            start,
            events,
            0,
        ));
    } else {
        let front = events.drop_last();
        let event = events.last();
        assert(front.push(event) =~= events);
        let sp = stream_from(room, false, start, front);
        let tp = stream_from(capacity, true, g, front);
        let s = stream_step(room, false, sp, event);
        let t = stream_step(capacity, true, tp, event);
        lemma_stream_within(capacity, g, front);
        lemma_stream_joined(capacity, g, front);
        lemma_stream_trace_push(room, false, start, front, event);
        lemma_stream_trace_push(capacity, true, g, front, event);
        lemma_stream_waits_push(room, false, start, front, event);
        lemma_stream_waits_push(capacity, true, g, front, event);
        let head = g.replies.drop_last();
        let ds = s.replies.skip(sp.replies.len() as int);
        let dt = t.replies.skip(tp.replies.len() as int);
        assert(stream_from(room, false, start, events) == s);
        assert(stream_from(capacity, true, g, events) == t);
        assert(!(sp.stage is Overrun) && !(sp.stage is Failed) && !(sp.stage is Done));
        lemma_stream_acks(room, false, start, front);
        assert(tp.stage == sp.stage && tp.last == sp.last && tp.acks == sp.acks);
        assert(tp.data.len() == g.data.len() + sp.data.len());
        assert(asked_again(sp) =~= none);
        assert(tp.replies =~= head + sp.replies);
        assert(s.replies =~= sp.replies + ds);
        assert(t.replies =~= tp.replies + dt);
        assert(dt =~= ds + asked_again(s)) by {
            assert(sp.replies.push(ACK).skip(sp.replies.len() as int) =~= seq![ACK]);
            assert(sp.replies.push(NAK).skip(sp.replies.len() as int) =~= seq![NAK]);
            assert(sp.replies.skip(sp.replies.len() as int) =~= none);
            assert(tp.replies.push(ACK).skip(tp.replies.len() as int) =~= seq![ACK]);
            assert(tp.replies.push(NAK).skip(tp.replies.len() as int) =~= seq![NAK]);
            assert(tp.replies.push(CHECKSUM_REQUEST).skip(tp.replies.len() as int)
                =~= seq![CHECKSUM_REQUEST]);
            assert(tp.replies.skip(tp.replies.len() as int) =~= none);
        }
        assert(t.replies =~= head + s.replies + asked_again(s));
        lemma_sends_concat(ds, asked_again(s));
        let a = stream_trace(room, false, start, front).push(Action::Read(event));
        assert(stream_trace(capacity, true, g, front) =~= stream_trace(room, false, start, front));
        assert(a + (as_sends(ds) + as_sends(asked_again(s))) =~= a + as_sends(ds) + as_sends(
            asked_again(s),
        ));
    }
}

/// Whether `r` and the output `after` are what a transfer comes to that
/// made the reads `events`, into an output that held `before`, by a
/// receiver that answers packets if `acks` is set.
pub open spec fn transfer_outcome<E>(
    acks: bool,
    before: Seq<u8>,
    after: Seq<u8>,
    events: Seq<Option<u8>>,
    r: Result<usize, Error<E>>,
) -> bool {
    let t = stream_from(before.len(), true, transfer_start(acks), events);
    &&& t.data.len() <= after.len()
    &&& after == t.data + before.skip(t.data.len() as int)
    &&& match r {
        Ok(n) => t.stage is Done && n == t.data.len(),
        Err(Error::Device(_)) => true,
        Err(Error::NoResponse) => t.stage is Start || t.stage is Flushing,
        Err(e) => t.stage == Stage::Failed(failure_of(e)),
    }
}

/// Whether `r` and the output `after` are what a transfer comes to that
/// made the reads `events`, into an output that held `before`, by a
/// receiver that answers no packet but the last.
pub open spec fn transfer_result<E>(
    before: Seq<u8>,
    after: Seq<u8>,
    events: Seq<Option<u8>>,
    r: Result<usize, Error<E>>,
) -> bool {
    transfer_outcome(false, before, after, events, r)
}

/// Whether a transfer that stands at `t` and has ended with `r` has asked
/// for a stream that it did not begin: it gave up when no reads were left
/// for the stream, and the request that `t` holds last was not sent.
pub open spec fn request_unsent<E>(t: Stream, r: Result<usize, Error<E>>) -> bool {
    (r matches Err(Error::NoResponse)) && t.stage is Start
}

/// A sequence that begins with `base` and is a start of `base` and `owed`
/// is `base` and a start of `owed`.
pub proof fn lemma_since<T>(base: Seq<T>, all: Seq<T>, owed: Seq<T>)
    requires
        base.is_prefix_of(all),
        all.is_prefix_of(base + owed),
    ensures
        all == base + all.skip(base.len() as int),
        all.skip(base.len() as int).is_prefix_of(owed),
        all == base + owed ==> all.skip(base.len() as int) == owed,
{
    let rest = all.skip(base.len() as int);
    assert forall|i: int| 0 <= i < base.len() implies all[i] == base[i] by {
        assert(base[i] == all.subrange(0, base.len() as int)[i]);
    }
    assert(all =~= base + rest);
    assert forall|i: int| 0 <= i < rest.len() implies rest[i] == owed[i] by {
        assert(all[i + base.len()] == (base + owed).subrange(0, all.len() as int)[i + base.len()]);
    }
    assert(rest =~= owed.subrange(0, rest.len() as int));
    if all == base + owed {
        assert(rest =~= owed);
    }
}

/// One stream of a transfer: where the transfer stood at `g` after the
/// reads `had`, with its last request not yet sent, and a stream was then
/// run that made the reads `since`, the transfer stands where
/// `stream_from` says for all the reads, and what was sent, what went
/// over the line and the waits are those of the transfer.
pub proof fn lemma_transfer_stream(
    capacity: nat,
    acks: bool,
    had: Seq<Option<u8>>,
    since: Seq<Option<u8>>,
    sent: (Seq<u8>, Seq<u8>, Seq<u8>),
    history: (Seq<Action>, Seq<Action>, Seq<Action>),
    waits: (Seq<(nat, nat)>, Seq<(nat, nat)>, Seq<(nat, nat)>),
    failed: bool,
    tried: Attempt,
)
    requires
        ({
            let start = transfer_start(acks);
            let g = stream_from(capacity, true, start, had);
            let trace = stream_trace(capacity, true, start, had);
            let room = (capacity - g.data.len()) as nat;
            let alone = stream_start(acks);
            let s = stream_from(room, false, alone, since);
            let went = as_sends(seq![CHECKSUM_REQUEST]) + stream_trace(room, false, alone, since);
            &&& g.stage is Start && g.last is None && g.acks == acks && g.data.len() <= capacity
            &&& g.replies.len() > 0 && g.replies.last() == CHECKSUM_REQUEST
            &&& trace.len() > 0 && trace.last() == Action::Sent(CHECKSUM_REQUEST)
            &&& sent.1 == sent.0 + g.replies.drop_last()
            &&& history.1 == history.0 + trace.drop_last()
            &&& waits.1 == waits.0 + stream_waits(capacity, true, start, had, had.len())
            &&& !(s.stage is Overrun)
            &&& sent.2.skip(sent.1.len() as int).is_prefix_of(s.replies)
            &&& sent.2 == sent.1 + sent.2.skip(sent.1.len() as int)
            &&& history.2.skip(history.1.len() as int).is_prefix_of(went)
            &&& history.2 == history.1 + history.2.skip(history.1.len() as int)
            &&& !failed ==> sent.2 == sent.1 + s.replies && history.2 == history.1 + went
            &&& failed ==> !(s.stage is Failed) && tried == stream_call(
                s,
                sent.2.skip(sent.1.len() as int).len() as int,
            )
            &&& waits.2 == waits.1 + stream_waits(room, false, alone, since, since.len())
        }),
    ensures
        ({
            let start = transfer_start(acks);
            let g = stream_from(capacity, true, start, had);
            let room = (capacity - g.data.len()) as nat;
            let s = stream_from(room, false, stream_start(acks), since);
            let t = stream_from(capacity, true, start, had + since);
            let trace = stream_trace(capacity, true, start, had + since);
            &&& t == stream_from(capacity, true, g, since)
            &&& sent.0.is_prefix_of(sent.2)
            &&& sent.2.is_prefix_of(sent.0 + t.replies)
            &&& history.0.is_prefix_of(history.2)
            &&& history.2.is_prefix_of(history.0 + trace)
            &&& waits.2 == waits.0 + stream_waits(
                capacity,
                true,
                start,
                had + since,
                had.len() + since.len(),
            )
            &&& failed ==> tried == stream_call(t, sent.2.len() - sent.0.len())
            &&& !failed ==> if s.stage == Stage::Failed(Failure::NoResponse) {
                &&& t.replies.len() > 0 && t.replies.last() == CHECKSUM_REQUEST
                &&& trace.len() > 0 && trace.last() == Action::Sent(CHECKSUM_REQUEST)
                &&& sent.2 == sent.0 + t.replies.drop_last()
                &&& history.2 == history.0 + trace.drop_last()
            } else {
                sent.2 == sent.0 + t.replies && history.2 == history.0 + trace
            }
        }),
{
    let start = transfer_start(acks);
    let g = stream_from(capacity, true, start, had);
    let was = stream_trace(capacity, true, start, had);
    let room = (capacity - g.data.len()) as nat;
    let alone = stream_start(acks);
    let s = stream_from(room, false, alone, since);
    let own = stream_trace(room, false, alone, since);
    let request = seq![CHECKSUM_REQUEST];
    let went = as_sends(request) + own;
    let t = stream_from(capacity, true, start, had + since);
    let trace = stream_trace(capacity, true, start, had + since);
    lemma_stream_concat(capacity, true, start, had, since);
    lemma_stream_trace_concat(capacity, true, start, had, since);
    lemma_stream_waits_concat(capacity, true, start, had, since);
    lemma_stream_joined(capacity, g, since);
    let head = g.replies.drop_last();
    let more = asked_again(s);
    let x = sent.2.skip(sent.1.len() as int);
    let y = history.2.skip(history.1.len() as int);
    assert(g.replies =~= head + request);
    assert(was =~= was.drop_last() + as_sends(request));
    assert(t.replies =~= head + s.replies + more);
    assert(trace =~= was + (own + as_sends(more)));
    assert(trace =~= was.drop_last() + went + as_sends(more));
    // What was sent.
    assert(sent.2 =~= sent.0 + (head + x));
    assert(sent.0 =~= sent.2.subrange(0, sent.0.len() as int));
    assert(sent.2 =~= (sent.0 + t.replies).subrange(0, sent.2.len() as int)) by {
        assert(x =~= s.replies.subrange(0, x.len() as int));
    }
    // What went over the line.
    assert(history.2 =~= history.0 + (was.drop_last() + y));
    assert(history.0 =~= history.2.subrange(0, history.0.len() as int));
    assert(history.2 =~= (history.0 + trace).subrange(0, history.2.len() as int)) by {
        assert(y =~= went.subrange(0, y.len() as int));
    }
    // The call at which the line failed.
    if failed {
        lemma_stream_within(capacity, g, since);
        assert(more =~= Seq::<u8>::empty());
        assert(x.len() <= s.replies.len());
        assert(sent.2.len() - sent.0.len() == head.len() + x.len());
        if x.len() < s.replies.len() {
            assert(t.replies[(head.len() + x.len()) as int] == s.replies[x.len() as int]);
        } else {
            assert(t.stage == s.stage);
        }
    }
    // The waits.
    assert(waits.2 =~= waits.0 + (stream_waits(capacity, true, start, had, had.len())
        + stream_waits(capacity, true, g, since, since.len())));
    if !failed {
        if s.stage == Stage::Failed(Failure::NoResponse) {
            assert(more =~= request);
            assert(as_sends(more) =~= Seq::<Action>::empty().push(Action::Sent(CHECKSUM_REQUEST)));
            assert(t.replies.drop_last() =~= head + s.replies);
            assert(trace.drop_last() =~= was.drop_last() + went);
            assert(sent.2 =~= sent.0 + t.replies.drop_last());
            assert(history.2 =~= history.0 + trace.drop_last());
        } else {
            assert(more =~= Seq::<u8>::empty());
            assert(as_sends(more) =~= Seq::<Action>::empty());
            assert(sent.2 =~= sent.0 + t.replies);
            assert(history.2 =~= history.0 + trace);
        }
    }
}

/// Receives a file over `dev` into `output` and returns how many bytes
/// were written: the whole transfer of a receiver made by `Receiver::new`,
/// as `Receiver::transfer` runs it.
pub fn receive<D: SerialDevice>(dev: D, output: &mut [u8]) -> (r: Result<usize, Error<D::Error>>)
    ensures
        final(output)@.len() == old(output)@.len(),
        exists|events: Seq<Option<u8>>| #[trigger]
            transfer_result(old(output)@, final(output)@, events, r),
{
    let mut receiver = Receiver::new(dev);
    let ghost fresh = receiver;
    let r = receiver.transfer(output);
    assert(transfer_result(old(output)@, output@, receiver.events_since(fresh), r));
    r
}

} // verus!
