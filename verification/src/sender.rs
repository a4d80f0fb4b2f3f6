//! The XMODEM-CRC sender.

use vstd::prelude::*;
use crate::consts::{ACK, NAK};
use crate::crc::spec_crc16;
use crate::device::{
    as_sends, one_fault_more, reads_after, Action, Attempt, Device, Fault, SerialDevice,
};
use crate::proto::be_bytes16;
use crate::time::Duration;
use crate::xmodem::{
    Packet, BLOCK_SIZE, CANCEL, CHECKSUM_REQUEST, END_OF_TRANSMISSION, READ_LIMIT, START_OF_HEADER,
};

verus! {

/// Why a transfer stopped.
#[derive(Debug)]
pub enum Error<S> {
    /// The receiver answered with a byte that is no answer.
    BadPacketType(u8),
    /// The receiver called the transfer off.
    Canceled,
    /// The receiver fell silent, or the sender had used up its reads.
    TimedOut,
    /// The serial line failed.
    Serial(S),
}

/// What the receiver's answer to a packet asks of the sender.
#[derive(Clone, Copy, Debug, PartialEq, Eq, Structural)]
pub enum Answer {
    /// Go on with the next packet.
    Next,
    /// Send the same packet again.
    Again,
    /// Stop: the receiver called the transfer off.
    Canceled,
    /// Stop: the byte is no answer.
    Unknown(u8),
}

/// What the answer `byte` asks for: `ACK` the next packet, `NAK` the same
/// again, `CAN` the end of the transfer.
pub open spec fn answer_meaning(byte: u8) -> Answer {
    if byte == ACK {
        Answer::Next
    } else if byte == NAK {
        Answer::Again
    } else if byte == CANCEL {
        Answer::Canceled
    } else {
        Answer::Unknown(byte)
    }
}

/// Tells what the receiver's answer `byte` asks of the sender.
pub fn read_answer(byte: u8) -> (a: Answer)
    ensures
        a == answer_meaning(byte),
{
    if byte == ACK {
        Answer::Next
    } else if byte == NAK {
        Answer::Again
    } else if byte == CANCEL {
        Answer::Canceled
    } else {
        Answer::Unknown(byte)
    }
}

/// Why an upload ended before its time, where the line itself did not
/// fail.
pub enum Failure {
    BadPacketType(u8),
    Canceled,
    TimedOut,
}

/// The failure that the error `e` tells of.
pub open spec fn failure_of<S>(e: Error<S>) -> Failure {
    match e {
        Error::BadPacketType(b) => Failure::BadPacketType(b),
        Error::Canceled => Failure::Canceled,
        _ => Failure::TimedOut,
    }
}

/// The wait of every read that the sender makes: the longest there is.
pub open spec fn patient() -> (nat, nat) {
    (u64::MAX as nat, 999_999_999)
}

/// The 133 bytes of the packet numbered `id` that carries `data`.
pub open spec fn packet_text(id: u8, data: Seq<u8>) -> Seq<u8> {
    seq![START_OF_HEADER, id, !id] + data + be_bytes16(spec_crc16(data))
}

/// How many packets the data `data` takes.
pub open spec fn blocks(data: Seq<u8>) -> nat {
    ((data.len() + 127) / 128) as nat
}

/// The bytes of `data` that the packet at `index` carries: 128, or what
/// is left of `data`.
pub open spec fn chunk(data: Seq<u8>, index: nat) -> Seq<u8> {
    data.subrange(
        128 * index as int,
        if 128 * index + 128 <= data.len() {
            128 * index + 128 as int
        } else {
            data.len() as int
        },
    )
}

/// The number of the packet at `index`: the first is numbered 1, and 0
/// comes after 255.
pub open spec fn block_id(index: nat) -> u8 {
    ((index + 1) % 256) as u8
}

/// The data of a packet that held `buffer` and now carries `chunk`: the
/// chunk, and behind it what the packet held there before.
pub open spec fn refill(buffer: Seq<u8>, chunk: Seq<u8>) -> Seq<u8> {
    chunk + buffer.skip(chunk.len() as int)
}

/// How the receiver has answered a packet.
pub enum Reply {
    /// Not yet, or with `NAK` only.
    Pending,
    /// With `ACK`.
    Acked,
    /// With something that ends the upload, or not in time.
    Failed(Failure),
    /// Reads were made after the answer had come.
    Overrun,
}

/// A packet on its way: everything sent so far, and the receiver's answer.
pub struct BlockRun {
    pub sent: Seq<u8>,
    pub reply: Reply,
}

/// The packet `packet` on its way after one more read: after `NAK` it has
/// been sent again.
pub open spec fn block_step(packet: Seq<u8>, b: BlockRun, event: Option<u8>) -> BlockRun {
    match b.reply {
        Reply::Pending => match event {
            Some(x) => match answer_meaning(x) {
                Answer::Next => BlockRun { reply: Reply::Acked, ..b },
                Answer::Again => BlockRun { sent: b.sent + packet, ..b },
                Answer::Canceled => BlockRun { reply: Reply::Failed(Failure::Canceled), ..b },
                Answer::Unknown(y) => BlockRun {
                    reply: Reply::Failed(Failure::BadPacketType(y)),
                    ..b
                },
            },
            None => BlockRun { reply: Reply::Failed(Failure::TimedOut), ..b },
        },
        _ => BlockRun { reply: Reply::Overrun, ..b },
    }
}

/// The packet `packet` on its way after the reads `events`.
pub open spec fn block_from(packet: Seq<u8>, b: BlockRun, events: Seq<Option<u8>>) -> BlockRun
    decreases events.len(),
{
    if events.len() == 0 {
        b
    } else {
        block_step(packet, block_from(packet, b, events.drop_last()), events.last())
    }
}

/// Where an upload stands.
pub enum Step {
    /// The sender waits for the receiver to ask for CRC mode.
    Waiting,
    /// The packet at `index` has been sent and waits for its answer.
    Block { index: nat },
    /// `EOT` has been sent and waits for its answer.
    Closing,
    /// The upload is over.
    Done,
    /// The upload has failed.
    Failed(Failure),
    /// Reads were made after the upload had ended.
    Overrun,
}

/// An upload as far as the reads made so far have carried it.
pub struct Upload {
    /// The data of the packet sent last.
    pub buffer: Seq<u8>,
    /// Every byte sent so far.
    pub sent: Seq<u8>,
    /// Where the upload stands.
    pub step: Step,
}

/// The upload `u` when the packet at `index` is due: the packet is sent,
/// or `EOT` if the data needs no packet at `index`.
#[verifier::opaque]
pub open spec fn begin_block(data: Seq<u8>, u: Upload, index: nat) -> Upload {
    if index >= blocks(data) {
        Upload { sent: u.sent.push(END_OF_TRANSMISSION), step: Step::Closing, ..u }
    } else {
        let buffer = refill(u.buffer, chunk(data, index));
        Upload {
            buffer,
            sent: u.sent + packet_text(block_id(index), buffer),
            step: Step::Block { index },
        }
    }
}

/// The upload of `data` after one more read.
pub open spec fn upload_step(data: Seq<u8>, u: Upload, event: Option<u8>) -> Upload {
    match u.step {
        Step::Waiting => match event {
            Some(b) => if b == CHECKSUM_REQUEST {
                begin_block(data, u, 0)
            } else {
                Upload { step: Step::Failed(Failure::BadPacketType(b)), ..u }
            },
            None => Upload { step: Step::Failed(Failure::TimedOut), ..u },
        },
        Step::Block { index } => match event {
            Some(x) => match answer_meaning(x) {
                Answer::Next => begin_block(data, u, index + 1),
                Answer::Again => Upload {
                    sent: u.sent + packet_text(block_id(index), u.buffer),
                    ..u
                },
                Answer::Canceled => Upload { step: Step::Failed(Failure::Canceled), ..u },
                Answer::Unknown(y) => Upload { step: Step::Failed(Failure::BadPacketType(y)), ..u },
            },
            None => Upload { step: Step::Failed(Failure::TimedOut), ..u },
        },
        Step::Closing => match event {
            Some(b) => if b == ACK {
                Upload { step: Step::Done, ..u }
            } else {
                Upload { step: Step::Failed(Failure::BadPacketType(b)), ..u }
            },
            None => Upload { step: Step::Failed(Failure::TimedOut), ..u },
        },
        _ => Upload { step: Step::Overrun, ..u },
    }
}

/// The upload of `data` after the reads `events`, made in order starting
/// from `u`.
pub open spec fn upload_from(data: Seq<u8>, u: Upload, events: Seq<Option<u8>>) -> Upload
    decreases events.len(),
{
    if events.len() == 0 {
        u
    } else {
        upload_step(data, upload_from(data, u, events.drop_last()), events.last())
    }
}

/// An upload before any read, by a sender whose packet holds `buffer` and
/// that has sent `sent`.
pub open spec fn upload_start(buffer: Seq<u8>, sent: Seq<u8>) -> Upload {
    Upload { buffer, sent, step: Step::Waiting }
}

/// What a packet on its way does on the line while the reads `events`
/// are made: each read, and right behind it the bytes that it makes the
/// sender send.
pub open spec fn block_trace(packet: Seq<u8>, b: BlockRun, events: Seq<Option<u8>>) -> Seq<Action>
    decreases events.len(),
{
    if events.len() == 0 {
        Seq::empty()
    } else {
        let before = block_from(packet, b, events.drop_last());
        let after = block_step(packet, before, events.last());
        block_trace(packet, b, events.drop_last()).push(Action::Read(events.last())) + as_sends(
            after.sent.skip(before.sent.len() as int),
        )
    }
}

/// What an upload does on the line while the reads `events` are made:
/// each read, and right behind it the bytes that it makes the sender
/// send. No byte of an answer is read before the packet it answers has
/// gone out in full.
pub open spec fn upload_trace(data: Seq<u8>, u: Upload, events: Seq<Option<u8>>) -> Seq<Action>
    decreases events.len(),
{
    if events.len() == 0 {
        Seq::empty()
    } else {
        let before = upload_from(data, u, events.drop_last());
        let after = upload_step(data, before, events.last());
        upload_trace(data, u, events.drop_last()).push(Action::Read(events.last())) + as_sends(
            after.sent.skip(before.sent.len() as int),
        )
    }
}

/// The bytes that go out when the packet at `index` is due, by a sender
/// whose packet holds `buffer` and that has sent `sent`: the packet, or
/// `EOT` if the data needs no packet at `index`.
pub open spec fn due(data: Seq<u8>, buffer: Seq<u8>, sent: Seq<u8>, index: nat) -> Seq<u8> {
    begin_block(data, Upload { buffer, sent, step: Step::Waiting }, index).sent.skip(
        sent.len() as int,
    )
}

/// What is due is sent behind what was sent before.
pub proof fn lemma_due(data: Seq<u8>, buffer: Seq<u8>, sent: Seq<u8>, index: nat)
    ensures
        begin_block(data, Upload { buffer, sent, step: Step::Waiting }, index).sent == sent + due(
            data,
            buffer,
            sent,
            index,
        ),
        due(data, buffer, sent, index) == (if index >= blocks(data) {
            seq![END_OF_TRANSMISSION]
        } else {
            packet_text(block_id(index), refill(buffer, chunk(data, index)))
        }),
{
    reveal(begin_block);
    let next = begin_block(data, Upload { buffer, sent, step: Step::Waiting }, index).sent;
    if index >= blocks(data) {
        assert(next =~= sent + seq![END_OF_TRANSMISSION]);
        assert((sent + seq![END_OF_TRANSMISSION]).skip(sent.len() as int)
            =~= seq![END_OF_TRANSMISSION]);
    } else {
        let packet = packet_text(block_id(index), refill(buffer, chunk(data, index)));
        assert((sent + packet).skip(sent.len() as int) =~= packet);
    }
}

/// One more read adds itself and what it makes the sender send.
pub proof fn lemma_block_trace_push(
    packet: Seq<u8>,
    b: BlockRun,
    events: Seq<Option<u8>>,
    event: Option<u8>,
)
    ensures
        block_trace(packet, b, events.push(event)) == block_trace(packet, b, events).push(
            Action::Read(event),
        ) + as_sends(
            block_step(packet, block_from(packet, b, events), event).sent.skip(
                block_from(packet, b, events).sent.len() as int,
            ),
        ),
{
    assert(events.push(event).drop_last() =~= events);
}

/// One more read adds itself and what it makes the sender send.
pub proof fn lemma_upload_trace_push(
    data: Seq<u8>,
    u: Upload,
    events: Seq<Option<u8>>,
    event: Option<u8>,
)
    ensures
        upload_trace(data, u, events.push(event)) == upload_trace(data, u, events).push(
            Action::Read(event),
        ) + as_sends(
            upload_step(data, upload_from(data, u, events), event).sent.skip(
                upload_from(data, u, events).sent.len() as int,
            ),
        ),
{
    assert(events.push(event).drop_last() =~= events);
}

/// What is done during `head` and then `tail` is what is done during
/// `head`, and behind it what is done during `tail` from where `head`
/// led.
pub proof fn lemma_upload_trace_concat(
    data: Seq<u8>,
    u: Upload,
    head: Seq<Option<u8>>,
    tail: Seq<Option<u8>>,
)
    ensures
        upload_trace(data, u, head + tail) == upload_trace(data, u, head) + upload_trace(
            data,
            upload_from(data, u, head),
            tail,
        ),
    decreases tail.len(),
{
    let mid = upload_from(data, u, head);
    if tail.len() == 0 {
        assert(head + tail =~= head);
        assert(upload_trace(data, u, head) + Seq::<Action>::empty() =~= upload_trace(
            data,
            u,
            head,
        ));
    } else {
        let front = tail.drop_last();
        assert((head + tail).drop_last() =~= head + front);
        assert((head + tail).last() == tail.last());
        lemma_upload_trace_concat(data, u, head, front);
        lemma_upload_concat(data, u, head, front);
        let before = upload_from(data, mid, front);
        let after = upload_step(data, before, tail.last());
        let more = as_sends(after.sent.skip(before.sent.len() as int));
        let a = upload_trace(data, u, head);
        let b = upload_trace(data, mid, front);
        assert((a + b).push(Action::Read(tail.last())) + more =~= a + (b.push(
            Action::Read(tail.last()),
        ) + more));
    }
}

/// What a sender asks of the line next that has sent `sent` bytes of the
/// bytes `owed`: to take the next of them, if one is owed, and else to
/// bring a byte, however long it takes.
pub open spec fn sender_call(owed: Seq<u8>, sent: int) -> Attempt {
    if 0 <= sent < owed.len() {
        Attempt::Send(owed[sent])
    } else {
        Attempt::Read(patient())
    }
}

/// One more read carries an upload on by one step.
pub proof fn lemma_upload_push(data: Seq<u8>, u: Upload, events: Seq<Option<u8>>, event: Option<u8>)
    ensures
        upload_from(data, u, events.push(event)) == upload_step(
            data,
            upload_from(data, u, events),
            event,
        ),
{
    assert(events.push(event).drop_last() =~= events);
}

/// Reading on from where `head` led is reading `head` and then `tail`.
pub proof fn lemma_upload_concat(
    data: Seq<u8>,
    u: Upload,
    head: Seq<Option<u8>>,
    tail: Seq<Option<u8>>,
)
    ensures
        upload_from(data, u, head + tail) == upload_from(data, upload_from(data, u, head), tail),
    decreases tail.len(),
{
    if tail.len() == 0 {
        assert(head + tail =~= head);
    } else {
        assert((head + tail).drop_last() =~= head + tail.drop_last());
        lemma_upload_concat(data, u, head, tail.drop_last());
    }
}

/// One more read carries a packet on by one step.
pub proof fn lemma_block_push(
    packet: Seq<u8>,
    b: BlockRun,
    events: Seq<Option<u8>>,
    event: Option<u8>,
)
    ensures
        block_from(packet, b, events.push(event)) == block_step(
            packet,
            block_from(packet, b, events),
            event,
        ),
{
    assert(events.push(event).drop_last() =~= events);
}

/// A packet on its own and the same packet as part of an upload: the
/// same reads send the same bytes and come to the same end, but that
/// where the packet on its own is acknowledged the upload goes on to the
/// next.
pub proof fn lemma_upload_block(data: Seq<u8>, u: Upload, index: nat, events: Seq<Option<u8>>)
    requires
        u.step == (Step::Block { index }),
    ensures
        ({
            let b = block_from(
                packet_text(block_id(index), u.buffer),
                BlockRun { sent: u.sent, reply: Reply::Pending },
                events,
            );
            let v = upload_from(data, u, events);
            let packet = packet_text(block_id(index), u.buffer);
            let start = BlockRun { sent: u.sent, reply: Reply::Pending };
            match b.reply {
                Reply::Pending => v == Upload { sent: b.sent, ..u } && upload_trace(data, u, events)
                    == block_trace(packet, start, events),
                Reply::Acked => v == begin_block(data, Upload { sent: b.sent, ..u }, index + 1)
                    && upload_trace(data, u, events) == block_trace(packet, start, events)
                    + as_sends(due(data, u.buffer, b.sent, index + 1)),
                Reply::Failed(f) => v == Upload { sent: b.sent, step: Step::Failed(f), ..u }
                    && upload_trace(data, u, events) == block_trace(packet, start, events),
                Reply::Overrun => true,
            }
        }),
    decreases events.len(),
{
    reveal(begin_block);
    if events.len() > 0 {
        let front = events.drop_last();
        let event = events.last();
        lemma_upload_block(data, u, index, front);
        let packet = packet_text(block_id(index), u.buffer);
        let start = BlockRun { sent: u.sent, reply: Reply::Pending };
        let b0 = block_from(packet, start, front);
        let b1 = block_step(packet, b0, event);
        let v0 = upload_from(data, u, front);
        let v1 = upload_step(data, v0, event);
        if b0.reply is Pending {
            let t = block_trace(packet, start, front).push(Action::Read(event));
            let nothing = Seq::<u8>::empty();
            assert(b0.sent.skip(b0.sent.len() as int) =~= nothing);
            assert(as_sends(nothing) =~= Seq::<Action>::empty());
            assert(t + Seq::<Action>::empty() =~= t);
            if b1.reply is Acked {
                assert(b1.sent == b0.sent);
                assert(v1.sent.skip(v0.sent.len() as int) == due(
                    data,
                    u.buffer,
                    b1.sent,
                    index + 1,
                ));
            } else {
                assert(v1.sent == b1.sent);
            }
        }
    }
}

/// One round of an upload: where the packet at `index` is due, with
/// `buffer` the data of the packet before it and `sent` what has been
/// sent, the reads `since` carry the upload on as they carry the packet.
pub proof fn lemma_upload_round(
    data: Seq<u8>,
    start: Upload,
    events: Seq<Option<u8>>,
    since: Seq<Option<u8>>,
    index: nat,
    buffer: Seq<u8>,
    sent: Seq<u8>,
)
    requires
        index < blocks(data),
        upload_from(data, start, events) == begin_block(
            data,
            Upload { buffer, sent, step: Step::Waiting },
            index,
        ),
    ensures
        ({
            let kept = refill(buffer, chunk(data, index));
            let packet = packet_text(block_id(index), kept);
            let b = block_from(
                packet,
                BlockRun { sent: sent + packet, reply: Reply::Pending },
                since,
            );
            let v = upload_from(data, start, events + since);
            let done = upload_trace(data, start, events) + block_trace(
                packet,
                BlockRun { sent: sent + packet, reply: Reply::Pending },
                since,
            );
            let now = upload_trace(data, start, events + since);
            match b.reply {
                Reply::Pending => now == done && v == (Upload {
                    buffer: kept,
                    sent: b.sent,
                    step: Step::Block { index },
                }),
                Reply::Acked => now == done + as_sends(due(data, kept, b.sent, index + 1)) && v
                    == begin_block(
                    data,
                    Upload { buffer: kept, sent: b.sent, step: Step::Waiting },
                    index + 1,
                ),
                Reply::Failed(f) => now == done && v == (Upload {
                    buffer: kept,
                    sent: b.sent,
                    step: Step::Failed(f),
                }),
                Reply::Overrun => true,
            }
        }),
{
    reveal(begin_block);
    let u = upload_from(data, start, events);
    lemma_upload_concat(data, start, events, since);
    lemma_upload_trace_concat(data, start, events, since);
    lemma_upload_block(data, u, index, since);
}

/// Whether the read `event` brought a `NAK`.
pub open spec fn asks_again(event: Option<u8>) -> bool {
    match event {
        Some(x) => answer_meaning(x) is Again,
        None => false,
    }
}

/// The read that answers a packet: it stands behind the packet, and
/// after a `NAK` the packet goes out once more behind it.
pub proof fn lemma_block_answer(
    packet: Seq<u8>,
    start: BlockRun,
    events: Seq<Option<u8>>,
    event: Option<u8>,
)
    requires
        block_from(packet, start, events).reply is Pending,
    ensures
        ({
            let before = block_from(packet, start, events);
            let after = block_from(packet, start, events.push(event));
            let done = as_sends(packet) + block_trace(packet, start, events);
            let owed = as_sends(packet) + block_trace(packet, start, events.push(event));
            &&& after == block_step(packet, before, event)
            &&& if asks_again(event) {
                owed == done.push(Action::Read(event)) + as_sends(packet) && after.sent
                    == before.sent + packet
            } else {
                owed == done.push(Action::Read(event)) && after.sent == before.sent
            }
        }),
{
    lemma_block_push(packet, start, events, event);
    lemma_block_trace_push(packet, start, events, event);
    let before = block_from(packet, start, events);
    let after = block_step(packet, before, event);
    let t = block_trace(packet, start, events);
    let more = as_sends(after.sent.skip(before.sent.len() as int));
    assert(as_sends(packet) + (t.push(Action::Read(event)) + more) =~= (as_sends(packet) + t).push(
        Action::Read(event),
    ) + more);
    if asks_again(event) {
        assert((before.sent + packet).skip(before.sent.len() as int) =~= packet);
    } else {
        assert(before.sent.skip(before.sent.len() as int) =~= Seq::<u8>::empty());
        assert(more =~= Seq::<Action>::empty());
        assert((as_sends(packet) + t).push(Action::Read(event)) + more =~= (as_sends(packet)
            + t).push(Action::Read(event)));
    }
}

/// Behind the same actions, a part of some bytes from their start is a
/// part of what sending all of them adds.
pub proof fn lemma_part_sent(done: Seq<Action>, part: Seq<u8>, whole: Seq<u8>)
    requires
        part.is_prefix_of(whole),
    ensures
        (done + as_sends(part)).is_prefix_of(done + as_sends(whole)),
{
    assert forall|i: int| 0 <= i < part.len() implies part[i] == whole[i] by {
        assert(part[i] == whole.subrange(0, part.len() as int)[i]);
    }
    assert((done + as_sends(part)) =~= (done + as_sends(whole)).subrange(
        0,
        (done + as_sends(part)).len() as int,
    ));
}

/// Actions that begin with `base` and are a part of `base` and `owed`
/// from the start are `base` and a part of `owed` from its start.
pub proof fn lemma_within(base: Seq<Action>, all: Seq<Action>, owed: Seq<Action>)
    requires
        base.is_prefix_of(all),
        all.is_prefix_of(base + owed),
    ensures
        all == base + all.skip(base.len() as int),
        all.skip(base.len() as int).is_prefix_of(owed),
        all == base + owed ==> all.skip(base.len() as int) == owed,
{
    let rest = all.skip(base.len() as int);
    assert forall|i: int| 0 <= i < base.len() implies all[i] == base[i] by {
        assert(base[i] == all.subrange(0, base.len() as int)[i]);
    }
    assert(all =~= base + rest);
    assert forall|i: int| 0 <= i < rest.len() implies rest[i] == owed[i] by {
        assert(all[i + base.len()] == (base + owed).subrange(0, all.len() as int)[i + base.len()]);
    }
    assert(rest =~= owed.subrange(0, rest.len() as int));
    if all == base + owed {
        assert(rest =~= owed);
    }
}

/// Whether the caller is told how far an upload of `total` bytes has
/// come once the block at `index` has been acknowledged: behind every
/// tenth block, from the first on, and behind the block at `total / 128`.
pub open spec fn reports_at(index: nat, total: nat) -> bool {
    index % 10 == 0 || index == total / 128
}

/// Tells whether progress is reported behind the block at `index` of an
/// upload of `total` bytes.
pub fn progress_due(index: usize, total: usize) -> (r: bool)
    ensures
        r == reports_at(index as nat, total as nat),
{
    index % 10 == 0 || index == total / 128
}

/// The sending end of an XMODEM-CRC transfer on a serial line.
pub struct Sender<S: SerialDevice> {
    buffer: Packet,
    device: Device<S>,
}

impl<S: SerialDevice> Sender<S> {
    /// Every byte sent so far.
    pub closed spec fn sent(self) -> Seq<u8> {
        self.device.sent()
    }

    /// Every byte received so far.
    pub closed spec fn received(self) -> Seq<u8> {
        self.device.received()
    }

    /// What every read so far has come to, oldest first: the byte that it
    /// brought, or `None` for a read that timed out.
    pub closed spec fn events(self) -> Seq<Option<u8>> {
        self.device.events()
    }

    /// How long each of the reads in `events` was to wait at most, as
    /// seconds and nanoseconds.
    pub closed spec fn waits(self) -> Seq<(nat, nat)> {
        self.device.waits()
    }

    /// Every byte sent and every read made so far, in the order in which
    /// they happened.
    pub closed spec fn history(self) -> Seq<Action> {
        self.device.history()
    }

    /// Every call at which the line has failed, oldest first.
    pub closed spec fn faults(self) -> Seq<Fault<S::Error>> {
        self.device.faults()
    }

    /// Whether the line has failed since `before` only as `r` tells: not
    /// at all, or, if `r` holds an error of the line, once, with that
    /// error, in the last call that was made of the line.
    pub open spec fn failed_as<T>(self, before: Self, r: Result<T, Error<S::Error>>) -> bool {
        match r {
            Err(Error::Serial(e)) => one_fault_more(
                before.faults(),
                self.faults(),
                self.history().len(),
                self.sent().len(),
                e,
            ),
            _ => self.faults() == before.faults(),
        }
    }

    /// How many reads were asked of the line since `before`: those that
    /// came back and the one, if any, at which the line failed.
    pub open spec fn reads_asked(self, before: Self) -> int {
        self.events().len() - before.events().len() + (if self.faults().len()
            > before.faults().len() && self.faults().last().tried is Read {
            1int
        } else {
            0int
        })
    }

    /// Whether the line has failed since `before` only as `r` tells, and
    /// every read asked of it since has used up one of the reads that
    /// were left, as far as they went.
    pub open spec fn accounted<T>(self, before: Self, r: Result<T, Error<S::Error>>) -> bool {
        &&& self.failed_as(before, r)
        &&& self.reads_left() == reads_after(before.reads_left(), self.reads_asked(before))
    }

    /// What was sent and read since `before`, in order.
    pub open spec fn history_since(self, before: Self) -> Seq<Action> {
        self.history().skip(before.history().len() as int)
    }

    /// The bytes sent since `before`.
    pub open spec fn sent_since(self, before: Self) -> Seq<u8> {
        self.sent().skip(before.sent().len() as int)
    }

    /// Since `before` the sender has done on the line what `owed` lists,
    /// in that order: all of it, unless the line failed, and then a
    /// part of it from its start.
    pub open spec fn acted<T>(
        self,
        before: Self,
        owed: Seq<Action>,
        r: Result<T, Error<S::Error>>,
    ) -> bool {
        &&& self.history() == before.history() + self.history_since(before)
        &&& self.history_since(before).is_prefix_of(owed)
        &&& !(r matches Err(Error::Serial(_))) ==> self.history_since(before) == owed
    }

    /// A history that has grown by a part of `owed` from its start, and
    /// by all of it unless the line failed, is what `acted` asks for.
    pub proof fn lemma_acted<T>(
        self,
        before: Self,
        done: Seq<Action>,
        owed: Seq<Action>,
        r: Result<T, Error<S::Error>>,
    )
        requires
            self.history() == before.history() + done,
            done.is_prefix_of(owed),
            !(r matches Err(Error::Serial(_))) ==> done == owed,
        ensures
            self.acted(before, owed, r),
    {
        assert((before.history() + done).skip(before.history().len() as int) =~= done);
    }

    /// The reads made since `before`.
    pub open spec fn events_since(self, before: Self) -> Seq<Option<u8>> {
        self.events().skip(before.events().len() as int)
    }

    /// How many more times the line may be read.
    pub closed spec fn reads_left(self) -> nat {
        self.device.reads_left()
    }

    /// The packet that was sent last.
    pub closed spec fn packet(self) -> Packet {
        self.buffer
    }

    /// Since `before` reads were made, each with the longest wait, and
    /// bytes may have been sent.
    pub open spec fn read_since(self, before: Self, events: Seq<Option<u8>>) -> bool {
        &&& self.events() == before.events() + events
        &&& self.waits() == before.waits() + Seq::new(events.len(), |i: int| patient())
        &&& self.reads_left() <= before.reads_left()
        &&& before.sent().is_prefix_of(self.sent())
    }

    /// Reads made up to `mid` and reads made since are reads made.
    pub proof fn lemma_read_chain(
        self,
        mid: Self,
        before: Self,
        events: Seq<Option<u8>>,
        since: Seq<Option<u8>>,
    )
        requires
            mid.read_since(before, events),
            self.read_since(mid, since),
        ensures
            self.read_since(before, events + since),
            self.events_since(before) == events + since,
            self.events_since(mid) == since,
    {
        let e0 = before.events();
        let w0 = before.waits();
        assert(e0 + events + since =~= e0 + (events + since));
        assert(w0 + Seq::new(events.len(), |i: int| patient()) + Seq::new(
            since.len(),
            |i: int| patient(),
        ) =~= w0 + Seq::new((events + since).len(), |i: int| patient()));
        assert((e0 + (events + since)).skip(e0.len() as int) =~= events + since);
        assert((mid.events() + since).skip(mid.events().len() as int) =~= since);
    }

    /// A sender on `device` that may read the line `READ_LIMIT` times.
    pub fn new(device: S) -> (s: Sender<S>)
        ensures
            s.sent() == Seq::<u8>::empty(),
            s.events() == Seq::<Option<u8>>::empty(),
            s.waits() == Seq::<(nat, nat)>::empty(),
            s.history() == Seq::<Action>::empty(),
            s.faults() == Seq::<Fault<S::Error>>::empty(),
            s.reads_left() == READ_LIMIT,
            s.packet().data() == Seq::new(128, |i: int| 0u8),
    {
        Sender { buffer: Packet::zeroed(), device: Device::new(device, READ_LIMIT) }
    }

    /// A sender on `device` that may read the line `read_limit` times.
    pub fn with_read_limit(device: S, read_limit: u64) -> (s: Sender<S>)
        ensures
            s.sent() == Seq::<u8>::empty(),
            s.events() == Seq::<Option<u8>>::empty(),
            s.waits() == Seq::<(nat, nat)>::empty(),
            s.history() == Seq::<Action>::empty(),
            s.faults() == Seq::<Fault<S::Error>>::empty(),
            s.reads_left() == read_limit,
            s.packet().data() == Seq::new(128, |i: int| 0u8),
    {
        Sender { buffer: Packet::zeroed(), device: Device::new(device, read_limit) }
    }

    /// Sends `byte`.
    fn transmit(&mut self, byte: u8) -> (r: Result<(), Error<S::Error>>)
        ensures
            final(self).accounted(*old(self), r),
            (r matches Err(Error::Serial(_))) ==> final(self).faults().last().tried == Attempt::Send(
                byte,
            ),
            final(self).events() == old(self).events(),
            final(self).waits() == old(self).waits(),
            final(self).reads_left() == old(self).reads_left(),
            final(self).packet() == old(self).packet(),
            match r {
                Ok(()) => final(self).sent() == old(self).sent().push(byte) && final(self).history()
                    == old(self).history().push(Action::Sent(byte)),
                Err(Error::Serial(_)) => final(self).sent() == old(self).sent()
                    && final(self).history() == old(self).history(),
                Err(_) => false,
            },
    {
        match self.device.send(byte) {
            Ok(()) => Ok(()),
            Err(crate::device::Error::Device(e)) => Err(Error::Serial(e)),
            Err(_) => Err(Error::TimedOut),
        }
    }

    /// Receives one byte, however long it takes.
    fn receive_byte(&mut self) -> (r: Result<u8, Error<S::Error>>)
        ensures
            final(self).accounted(*old(self), r),
            (r matches Err(Error::Serial(_))) ==> final(self).faults().last().tried == Attempt::Read(
                patient(),
            ),
            final(self).sent() == old(self).sent(),
            final(self).packet() == old(self).packet(),
            old(self).reads_left() > 0 ==> final(self).reads_left() == old(self).reads_left() - 1,
            old(self).reads_left() == 0 ==> final(self).reads_left() == 0 && r is Err,
            final(self).history() == (match r {
                Ok(byte) => old(self).history().push(Action::Read(Some(byte))),
                Err(Error::TimedOut) => old(self).history().push(Action::Read(None)),
                _ => old(self).history(),
            }),
            match r {
                Ok(byte) => final(self).read_since(*old(self), seq![Some(byte)]),
                Err(Error::TimedOut) => final(self).read_since(*old(self), seq![None::<u8>]),
                Err(Error::Serial(_)) => final(self).read_since(
                    *old(self),
                    Seq::<Option<u8>>::empty(),
                ),
                Err(_) => false,
            },
    {
        let r = self.device.recv(Duration::max());
        proof {
            let e = old(self).events();
            let w = old(self).waits();
            assert(self.sent().is_prefix_of(self.sent()));
            assert(e =~= e + Seq::<Option<u8>>::empty());
            assert(w =~= w + Seq::new(0, |i: int| patient()));
            assert(w.push(patient()) =~= w + Seq::new(1, |i: int| patient()));
            match r {
                Ok(b) => {
                    assert(e.push(Some(b)) =~= e + seq![Some(b)]);
                },
                _ => {
                    assert(e.push(None) =~= e + seq![None::<u8>]);
                },
            }
        }
        match r {
            Ok(byte) => Ok(byte),
            Err(crate::device::Error::Device(e)) => Err(Error::Serial(e)),
            Err(_) => Err(Error::TimedOut),
        }
    }

    /// Waits for the receiver to ask for CRC mode. Any other byte is
    /// `BadPacketType`.
    pub fn begin(&mut self) -> (r: Result<(), Error<S::Error>>)
        ensures
            final(self).accounted(*old(self), r),
            (r matches Err(Error::Serial(_))) ==> final(self).faults().last().tried == Attempt::Read(
                patient(),
            ),
            final(self).sent() == old(self).sent(),
            final(self).packet() == old(self).packet(),
            final(self).history() == (match r {
                Ok(()) => old(self).history().push(Action::Read(Some(CHECKSUM_REQUEST))),
                Err(Error::BadPacketType(b)) => old(self).history().push(Action::Read(Some(b))),
                Err(Error::TimedOut) => old(self).history().push(Action::Read(None)),
                _ => old(self).history(),
            }),
            match r {
                Ok(()) => final(self).read_since(*old(self), seq![Some(CHECKSUM_REQUEST)]),
                Err(Error::BadPacketType(b)) => b != CHECKSUM_REQUEST && final(self).read_since(
                    *old(self),
                    seq![Some(b)],
                ),
                Err(Error::TimedOut) => final(self).read_since(*old(self), seq![None::<u8>]),
                Err(Error::Serial(_)) => final(self).read_since(
                    *old(self),
                    Seq::<Option<u8>>::empty(),
                ),
                Err(_) => false,
            },
    {
        match self.receive_byte() {
            Ok(byte) => {
                if byte == CHECKSUM_REQUEST {
                    Ok(())
                } else {
                    Err(Error::BadPacketType(byte))
                }
            },
            Err(e) => Err(e),
        }
    }

    /// Sends the 133 bytes of the packet in the buffer.
    fn send_packet(&mut self) -> (r: Result<(), Error<S::Error>>)
        ensures
            final(self).accounted(*old(self), r),
            (r matches Err(Error::Serial(_))) ==> final(self).faults().last().tried == Attempt::Send(
                old(self).packet().wire()[final(self).sent_since(*old(self)).len() as int],
            ),
            final(self).events() == old(self).events(),
            final(self).waits() == old(self).waits(),
            final(self).reads_left() == old(self).reads_left(),
            final(self).packet() == old(self).packet(),
            old(self).sent().is_prefix_of(final(self).sent()),
            final(self).sent() == old(self).sent() + final(self).sent_since(*old(self)),
            final(self).history() == old(self).history() + as_sends(
                final(self).sent_since(*old(self)),
            ),
            final(self).sent_since(*old(self)).is_prefix_of(old(self).packet().wire()),
            match r {
                Ok(()) => final(self).sent() == old(self).sent() + old(self).packet().wire(),
                Err(Error::Serial(_)) => final(self).sent_since(*old(self)).len() < 133,
                Err(_) => false,
            },
    {
        let bytes = self.buffer.to_bytes();
        let mut i: usize = 0;
        assert(self.sent() =~= old(self).sent() + bytes@.take(0));
        assert(self.history() =~= old(self).history() + as_sends(bytes@.take(0)));
        while i < 133
            invariant
                self.accounted(*old(self), Ok::<(), Error<S::Error>>(())),
                old(self).events().len() <= self.events().len(),
                i <= 133,
                bytes@ == old(self).packet().wire(),
                self.events() == old(self).events(),
                self.waits() == old(self).waits(),
                self.reads_left() == old(self).reads_left(),
                self.packet() == old(self).packet(),
                bytes@.len() == 133,
                self.sent() == old(self).sent() + bytes@.take(i as int),
                self.history() == old(self).history() + as_sends(bytes@.take(i as int)),
            decreases 133 - i,
        {
            match self.transmit(bytes[i]) {
                Ok(()) => {
                    assert(self.sent() =~= old(self).sent() + bytes@.take(i + 1));
                    assert(self.history() =~= old(self).history() + as_sends(bytes@.take(i + 1)));
                },
                Err(e) => {
                    proof {
                        let part = bytes@.take(i as int);
                        assert((old(self).sent() + part).skip(old(self).sent().len() as int)
                            =~= part);
                    }
                    return Err(e);
                },
            }
            i += 1;
        }
        proof {
            assert(bytes@.take(133) =~= bytes@);
            assert((old(self).sent() + bytes@).skip(old(self).sent().len() as int) =~= bytes@);
        }
        Ok(())
    }

    /// Sends `chunk` as the packet numbered `id`, again after each `NAK`,
    /// until the receiver answers `ACK`. `CAN` is `Canceled`, any other
    /// answer `BadPacketType`.
    ///
    /// What is sent, and how it ends, is what `block_from` makes of the
    /// reads that were made.
    #[verifier::rlimit(60)]
    pub fn send_block(&mut self, id: u8, chunk: &[u8]) -> (r: Result<(), Error<S::Error>>)
        requires
            chunk@.len() <= 128,
        ensures
            final(self).accounted(*old(self), r),
            final(self).packet().data() == refill(old(self).packet().data(), chunk@),
            final(self).packet().wire() == packet_text(id, final(self).packet().data()),
            final(self).read_since(*old(self), final(self).events_since(*old(self))),
            ({
                let packet = final(self).packet().wire();
                let b = block_from(
                    packet,
                    BlockRun { sent: old(self).sent() + packet, reply: Reply::Pending },
                    final(self).events_since(*old(self)),
                );
                &&& !(r matches Err(Error::Serial(_))) ==> final(self).sent() == b.sent
                &&& final(self).sent().is_prefix_of(b.sent)
                &&& final(self).acted(
                    *old(self),
                    as_sends(packet) + block_trace(
                        packet,
                        BlockRun { sent: old(self).sent() + packet, reply: Reply::Pending },
                        final(self).events_since(*old(self)),
                    ),
                    r,
                )
                &&& match r {
                    Ok(()) => b.reply is Acked,
                    Err(Error::Serial(_)) => b.reply is Pending && final(self).faults().last().tried
                        == sender_call(b.sent, final(self).sent().len() as int),
                    Err(e) => b.reply == Reply::Failed(failure_of(e)),
                }
            }),
    {
        self.buffer.fill(id, chunk);
        let ghost filled = self.buffer;
        let ghost packet = filled.wire();
        let ghost mut ev = Seq::<Option<u8>>::empty();
        let ghost start = BlockRun { sent: old(self).sent() + packet, reply: Reply::Pending };
        let ghost mut b = start;
        let ghost mut done = Seq::<Action>::empty();
        proof {
            filled.lemma_sizes();
            assert(packet =~= packet_text(id, filled.data()));
            let e = self.events();
            assert(e =~= e + ev);
            assert(self.waits() =~= self.waits() + Seq::new(0, |i: int| patient()));
            assert(self.sent().is_prefix_of(self.sent()));
            assert(old(self).sent().is_prefix_of(old(self).sent() + packet));
            assert(self.history() =~= old(self).history() + done);
            assert(done + as_sends(packet) =~= as_sends(packet) + block_trace(packet, start, ev));
        }
        let mut acked = false;
        while !acked
            invariant
                self.accounted(*old(self), Ok::<(), Error<S::Error>>(())),
                old(self).events().len() <= self.events().len(),
                self.packet() == filled,
                packet == filled.wire(),
                packet.len() == 133,
                filled.data() == refill(old(self).packet().data(), chunk@),
                packet == packet_text(id, filled.data()),
                start == (BlockRun { sent: old(self).sent() + packet, reply: Reply::Pending }),
                self.read_since(*old(self), ev),
                b == block_from(packet, start, ev),
                b.reply == (if acked {
                    Reply::Acked
                } else {
                    Reply::Pending
                }),
                acked ==> self.sent() == b.sent,
                !acked ==> self.sent() + packet == b.sent,
                self.history() == old(self).history() + done,
                done + (if acked {
                    Seq::<Action>::empty()
                } else {
                    as_sends(packet)
                }) == as_sends(packet) + block_trace(packet, start, ev),
            decreases self.reads_left() + (if acked { 0nat } else { 1nat }),
        {
            let ghost before = *self;
            let ghost owed = as_sends(packet) + block_trace(packet, start, ev);
            let r = self.send_packet();
            proof {
                let part = self.sent_since(before);
                let e0 = old(self).events();
                assert((e0 + ev).skip(e0.len() as int) =~= ev);
                lemma_part_sent(done, part, packet);
                assert(self.history() =~= old(self).history() + (done + as_sends(part)));
                assert((before.sent() + part).is_prefix_of(before.sent() + packet)) by {
                    assert(before.sent() + part =~= (before.sent() + packet).subrange(
                        0,
                        (before.sent() + part).len() as int,
                    ));
                }
                if r is Ok {
                    assert((before.sent() + packet).skip(before.sent().len() as int) =~= packet);
                } else {
                    self.lemma_acted(*old(self), done + as_sends(part), owed, r);
                    assert(b.sent =~= before.sent() + packet);
                    assert(self.sent().len() == before.sent().len() + part.len());
                    assert(b.sent[self.sent().len() as int] == packet[part.len() as int]);
                }
                done = done + as_sends(part);
            }
            match r {
                Ok(()) => {},
                Err(e) => {
                    return Err(e);
                },
            }
            let r = self.receive_byte();
            proof {
                let e0 = old(self).events();
                let w0 = old(self).waits();
                let more = self.events_since(before);
                assert((before.events() + more).skip(before.events().len() as int) =~= more)
                    by {
                    assert(self.events().skip(before.events().len() as int) =~= more);
                }
                let n = ev.len();
                match r {
                    Ok(x) => {
                        assert(e0 + ev + seq![Some(x)] =~= e0 + ev.push(Some(x)));
                        assert(w0 + Seq::new(n, |i: int| patient()) + Seq::new(
                            1,
                            |i: int| patient(),
                        ) =~= w0 + Seq::new(n + 1, |i: int| patient()));
                        lemma_block_answer(packet, start, ev, Some(x));
                        assert(self.history() =~= old(self).history() + done.push(
                            Action::Read(Some(x)),
                        ));
                        done = done.push(Action::Read(Some(x)));
                        ev = ev.push(Some(x));
                    },
                    Err(Error::TimedOut) => {
                        assert(e0 + ev + seq![None::<u8>] =~= e0 + ev.push(None));
                        assert(w0 + Seq::new(n, |i: int| patient()) + Seq::new(
                            1,
                            |i: int| patient(),
                        ) =~= w0 + Seq::new(n + 1, |i: int| patient()));
                        lemma_block_answer(packet, start, ev, None);
                        assert(self.history() =~= old(self).history() + done.push(
                            Action::Read(None),
                        ));
                        done = done.push(Action::Read(None));
                        ev = ev.push(None);
                    },
                    _ => {
                        assert(e0 + ev + Seq::<Option<u8>>::empty() =~= e0 + ev);
                        assert(w0 + Seq::new(n, |i: int| patient()) + Seq::new(
                            0,
                            |i: int| patient(),
                        ) =~= w0 + Seq::new(n, |i: int| patient()));
                    },
                }
                b = block_from(packet, start, ev);
                assert((e0 + ev).skip(e0.len() as int) =~= ev);
                assert(old(self).sent().is_prefix_of(self.sent())) by {
                    assert(old(self).sent().is_prefix_of(before.sent()));
                    assert(before.sent().is_prefix_of(before.sent() + packet));
                }
                assert(self.sent().is_prefix_of(self.sent()));
                let now = as_sends(packet) + block_trace(packet, start, ev);
                if r is Err {
                    self.lemma_acted(*old(self), done, now, r);
                } else if !asks_again(Some(r->Ok_0)) {
                    assert(done + Seq::<Action>::empty() =~= done);
                    if !(answer_meaning(r->Ok_0) is Next) {
                        self.lemma_acted(
                            *old(self),
                            done,
                            now,
                            Err::<(), Error<S::Error>>(Error::Canceled),
                        );
                    }
                }
            }
            let answer = match r {
                Ok(byte) => byte,
                Err(e) => {
                    return Err(e);
                },
            };
            match read_answer(answer) {
                Answer::Next => {
                    acked = true;
                },
                Answer::Again => {},
                Answer::Canceled => {
                    return Err(Error::Canceled);
                },
                Answer::Unknown(x) => {
                    return Err(Error::BadPacketType(x));
                },
            }
        }
        proof {
            let e0 = old(self).events();
            assert((e0 + ev).skip(e0.len() as int) =~= ev);
            assert(done + Seq::<Action>::empty() =~= done);
            self.lemma_acted(
                *old(self),
                done,
                as_sends(packet) + block_trace(packet, start, ev),
                Ok::<(), Error<S::Error>>(()),
            );
        }
        Ok(())
    }

    /// Ends the transfer: sends `EOT` and waits for `ACK`. Any other
    /// answer is `BadPacketType`.
    pub fn finish(&mut self) -> (r: Result<(), Error<S::Error>>)
        ensures
            final(self).accounted(*old(self), r),
            (r matches Err(Error::Serial(_))) ==> final(self).faults().last().tried == sender_call(
                old(self).sent().push(END_OF_TRANSMISSION),
                final(self).sent().len() as int,
            ),
            final(self).packet() == old(self).packet(),
            match r {
                Ok(()) => final(self).sent() == old(self).sent().push(END_OF_TRANSMISSION) && final(self).read_since(*old(self), seq![Some(ACK)]),
                Err(Error::BadPacketType(b)) => b != ACK && final(self).sent() == old(self).sent().push(END_OF_TRANSMISSION) && final(self).read_since(*old(self), seq![Some(b)]),
                Err(Error::TimedOut) => final(self).sent() == old(self).sent().push(END_OF_TRANSMISSION) && final(self).read_since(*old(self), seq![None::<u8>]),
                Err(Error::Serial(_)) => final(self).read_since(
                    *old(self),
                    Seq::<Option<u8>>::empty(),
                ),
                Err(_) => false,
            },
            final(self).history() == (match r {
                Ok(()) => old(self).history().push(Action::Sent(END_OF_TRANSMISSION)).push(
                    Action::Read(Some(ACK)),
                ),
                Err(Error::BadPacketType(b)) => old(self).history().push(
                    Action::Sent(END_OF_TRANSMISSION),
                ).push(Action::Read(Some(b))),
                Err(Error::TimedOut) => old(self).history().push(
                    Action::Sent(END_OF_TRANSMISSION),
                ).push(Action::Read(None)),
                _ => if final(self).sent() == old(self).sent() {
                    old(self).history()
                } else {
                    old(self).history().push(Action::Sent(END_OF_TRANSMISSION))
                },
            }),
            r matches Err(Error::Serial(_)) ==> final(self).sent() == old(self).sent() || final(self).sent() == old(self).sent().push(END_OF_TRANSMISSION),
    {
        match self.transmit(END_OF_TRANSMISSION) {
            Ok(()) => {},
            Err(e) => {
                proof {
                    assert(self.events() =~= old(self).events() + Seq::<Option<u8>>::empty());
                    assert(self.waits() =~= old(self).waits() + Seq::new(0, |i: int| patient()));
                    assert(self.sent().is_prefix_of(self.sent()));
                }
                return Err(e);
            },
        }
        proof {
            assert(old(self).sent().is_prefix_of(old(self).sent().push(END_OF_TRANSMISSION)));
            assert(old(self).sent().push(END_OF_TRANSMISSION) != old(self).sent()) by {
                assert(old(self).sent().push(END_OF_TRANSMISSION).len() != old(self).sent().len());
            }
        }
        match self.receive_byte() {
            Ok(byte) => {
                if byte == ACK {
                    Ok(())
                } else {
                    Err(Error::BadPacketType(byte))
                }
            },
            Err(e) => Err(e),
        }
    }

    /// One round of an upload: sends the block of `data` that starts at
    /// `offset` as the packet numbered `id`, and returns where the next
    /// block starts.
    #[verifier::rlimit(60)]
    fn send_round(
        &mut self,
        data: &[u8],
        offset: usize,
        id: u8,
        Ghost(index): Ghost<nat>,
        Ghost(start): Ghost<Upload>,
        Ghost(events): Ghost<Seq<Option<u8>>>,
        Ghost(base): Ghost<Seq<Action>>,
    ) -> (r: Result<(usize, u8), Error<S::Error>>)
        requires
            offset < data@.len(),
            offset == 128 * index,
            id == block_id(index),
            old(self).history() + as_sends(
                due(data@, old(self).packet().data(), old(self).sent(), index),
            ) == base + upload_trace(data@, start, events),
            upload_from(data@, start, events) == begin_block(
                data@,
                Upload {
                    buffer: old(self).packet().data(),
                    sent: old(self).sent(),
                    step: Step::Waiting,
                },
                index,
            ),
        ensures
            final(self).accounted(*old(self), r),
            final(self).read_since(*old(self), final(self).events_since(*old(self))),
            old(self).history().is_prefix_of(final(self).history()),
            ({
                let v = upload_from(data@, start, events + final(self).events_since(*old(self)));
                let owed = base + upload_trace(
                    data@,
                    start,
                    events + final(self).events_since(*old(self)),
                );
                match r {
                    Ok(_) => final(self).history() + as_sends(
                        due(data@, final(self).packet().data(), final(self).sent(), index + 1),
                    ) == owed,
                    Err(Error::Serial(_)) => final(self).history().is_prefix_of(owed) && final(self).sent().is_prefix_of(v.sent) && final(self).faults().last().tried
                        == sender_call(v.sent, final(self).sent().len() as int),
                    Err(_) => final(self).history() == owed,
                }
            }),
            ({
                let v = upload_from(data@, start, events + final(self).events_since(*old(self)));
                match r {
                    Ok((next, next_id)) => {
                        &&& offset < next <= data@.len()
                        &&& next == 128 * (index + 1) || (next == data@.len() && index + 1
                            == blocks(data@))
                        &&& index + 1 <= blocks(data@)
                        &&& next_id == block_id(index + 1)
                        &&& v == begin_block(
                            data@,
                            Upload {
                                buffer: final(self).packet().data(),
                                sent: final(self).sent(),
                                step: Step::Waiting,
                            },
                            index + 1,
                        )
                    },
                    Err(Error::Serial(_)) => true,
                    Err(e) => v.step == Step::Failed(failure_of(e)) && v.sent == final(self).sent(),
                }
            }),
    {
        let size = data.len();
        let n: usize = if size - offset < BLOCK_SIZE {
            size - offset
        } else {
            BLOCK_SIZE
        };
        let r = self.send_block(id, &data[offset..offset + n]);
        proof {
            let since = self.events_since(*old(self));
            assert(data@.subrange(offset as int, offset + n) =~= chunk(data@, index));
            lemma_upload_round(
                data@,
                start,
                events,
                since,
                index,
                old(self).packet().data(),
                old(self).sent(),
            );
            lemma_due(data@, old(self).packet().data(), old(self).sent(), index);
            let packet = self.packet().wire();
            let trace = block_trace(
                packet,
                BlockRun { sent: old(self).sent() + packet, reply: Reply::Pending },
                since,
            );
            let h0 = old(self).history();
            let more = self.history_since(*old(self));
            let was = upload_trace(data@, start, events);
            assert(h0.is_prefix_of(h0 + more)) by {
                assert(h0 =~= (h0 + more).subrange(0, h0.len() as int));
            }
            assert(index < blocks(data@));
            assert(packet == due(data@, old(self).packet().data(), old(self).sent(), index));
            assert(h0 + as_sends(packet) == base + was);
            assert(h0 + (as_sends(packet) + trace) =~= (h0 + as_sends(packet)) + trace);
            assert((base + was) + trace =~= base + (was + trace));
            if r is Ok {
                let next = as_sends(
                    due(data@, self.packet().data(), self.sent(), (index + 1) as nat),
                );
                assert(h0 + (as_sends(packet) + trace) + next =~= base + (was + trace + next));
            } else if r matches Err(Error::Serial(_)) {
                assert((h0 + more).is_prefix_of(h0 + (as_sends(packet) + trace))) by {
                    assert(h0 + more =~= (h0 + (as_sends(packet) + trace)).subrange(
                        0,
                        (h0 + more).len() as int,
                    )) by {
                        assert(more =~= (as_sends(packet) + trace).subrange(0, more.len() as int));
                    }
                }
            }
        }
        match r {
            Ok(()) => Ok((offset + n, id.wrapping_add(1))),
            Err(e) => Err(e),
        }
    }

    /// Sends `data` as a stream of packets: waits for the receiver to ask
    /// for CRC mode, sends the data in blocks of 128 bytes numbered from 1,
    /// each as `send_block` does, and ends the transfer as `finish` does.
    /// The last block, where it is short, is filled up with what the block
    /// before it held there.
    ///
    /// Behind each block that `progress_due` names, once it has been
    /// acknowledged, `progress` is called with the offset of the block
    /// and the length of `data`.
    ///
    /// What is sent, and how it ends, is what `upload_from` makes of the
    /// reads that were made; every read waits as long as it takes. A call
    /// at which the line fails is the last one made of it, and the error
    /// is the line's.
    #[verifier::rlimit(100)]
    pub fn send(&mut self, data: &[u8], mut progress: impl FnMut(usize, usize)) -> (r: Result<
        (),
        Error<S::Error>,
    >)
        requires
            forall|done: usize, total: usize| #[trigger] progress.requires((done, total)),
        ensures
            final(self).accounted(*old(self), r),
            final(self).read_since(*old(self), final(self).events_since(*old(self))),
            ({
                let u = upload_from(
                    data@,
                    upload_start(old(self).packet().data(), old(self).sent()),
                    final(self).events_since(*old(self)),
                );
                &&& !(r matches Err(Error::Serial(_))) ==> final(self).sent() == u.sent
                &&& final(self).sent().is_prefix_of(u.sent)
                &&& final(self).acted(
                    *old(self),
                    upload_trace(
                        data@,
                        upload_start(old(self).packet().data(), old(self).sent()),
                        final(self).events_since(*old(self)),
                    ),
                    r,
                )
                &&& match r {
                    Ok(()) => u.step is Done,
                    Err(Error::Serial(_)) => final(self).faults().last().tried == sender_call(
                        u.sent,
                        final(self).sent().len() as int,
                    ),
                    Err(e) => u.step == Step::Failed(failure_of(e)),
                }
            }),
    {
        let ghost start = upload_start(self.packet().data(), self.sent());
        let ghost mut ev = Seq::<Option<u8>>::empty();
        let ghost base = self.history();
        let r = self.begin();
        proof {
            let e0 = old(self).events();
            ev = self.events_since(*old(self));
            assert(self.sent().is_prefix_of(self.sent()));
            assert(base.is_prefix_of(self.history())) by {
                assert(base =~= self.history().subrange(0, base.len() as int));
            }
            match r {
                Ok(()) => {
                    assert((e0 + seq![Some(CHECKSUM_REQUEST)]).skip(e0.len() as int)
                        =~= seq![Some(CHECKSUM_REQUEST)]);
                },
                Err(Error::BadPacketType(b)) => {
                    assert((e0 + seq![Some(b)]).skip(e0.len() as int) =~= seq![Some(b)]);
                },
                Err(Error::TimedOut) => {
                    assert((e0 + seq![None::<u8>]).skip(e0.len() as int) =~= seq![None::<u8>]);
                },
                _ => {
                    assert((e0 + Seq::<Option<u8>>::empty()).skip(e0.len() as int)
                        =~= Seq::<Option<u8>>::empty());
                },
            }
            let none = Seq::<Option<u8>>::empty();
            if ev.len() == 1 {
                assert(ev =~= none.push(ev[0]));
                lemma_upload_push(data@, start, none, ev[0]);
                lemma_upload_trace_push(data@, start, none, ev[0]);
                let first = upload_from(data@, start, ev);
                let told = Seq::<Action>::empty().push(Action::Read(ev[0]));
                assert(upload_trace(data@, start, none) =~= Seq::<Action>::empty());
                assert(self.history() =~= base + told);
                lemma_due(data@, start.buffer, start.sent, 0);
                if r is Ok {
                    assert(first.sent.skip(start.sent.len() as int) == due(
                        data@,
                        start.buffer,
                        start.sent,
                        0,
                    ));
                    assert(base + told + as_sends(due(data@, start.buffer, start.sent, 0)) =~= base
                        + (told + as_sends(due(data@, start.buffer, start.sent, 0))));
                } else {
                    assert(first.sent == start.sent);
                    assert(start.sent.skip(start.sent.len() as int) =~= Seq::<u8>::empty());
                    assert(told + as_sends(Seq::<u8>::empty()) =~= told);
                    self.lemma_acted(*old(self), told, told, r);
                }
            } else {
                assert(self.history() =~= base + Seq::<Action>::empty());
                self.lemma_acted(
                    *old(self),
                    Seq::<Action>::empty(),
                    upload_trace(data@, start, ev),
                    r,
                );
            }
            reveal(begin_block);
        }
        match r {
            Ok(()) => {},
            Err(e) => {
                return Err(e);
            },
        }
        let size = data.len();
        let mut id: u8 = 1;
        let mut offset: usize = 0;
        let ghost mut index: nat = 0;
        while offset < size
            invariant
                self.accounted(*old(self), Ok::<(), Error<S::Error>>(())),
                old(self).events().len() <= self.events().len(),
                forall|done: usize, total: usize| #[trigger] progress.requires((done, total)),
                size == data@.len(),
                offset <= size,
                offset == 128 * index || (offset == size && index == blocks(data@)),
                index <= blocks(data@),
                id == block_id(index),
                start == upload_start(old(self).packet().data(), old(self).sent()),
                self.read_since(*old(self), ev),
                upload_from(data@, start, ev) == begin_block(
                    data@,
                    Upload { buffer: self.packet().data(), sent: self.sent(), step: Step::Waiting },
                    index,
                ),
                base == old(self).history(),
                base.is_prefix_of(self.history()),
                self.history() + as_sends(due(data@, self.packet().data(), self.sent(), index))
                    == base + upload_trace(data@, start, ev),
            decreases size - offset,
        {
            let ghost before = *self;
            let at = offset;
            let r = self.send_round(
                data,
                offset,
                id,
                Ghost(index),
                Ghost(start),
                Ghost(ev),
                Ghost(base),
            );
            proof {
                self.lemma_read_chain(before, *old(self), ev, self.events_since(before));
                ev = ev + self.events_since(before);
                assert(base.is_prefix_of(self.history())) by {
                    assert(base =~= before.history().subrange(0, base.len() as int));
                    assert(before.history() =~= self.history().subrange(
                        0,
                        before.history().len() as int,
                    ));
                    assert(base =~= self.history().subrange(0, base.len() as int));
                }
                if r is Err {
                    let owed = upload_trace(data@, start, ev);
                    assert(self.history().is_prefix_of(base + owed)) by {
                        if !(r matches Err(Error::Serial(_))) {
                            assert(self.history() =~= (base + owed).subrange(
                                0,
                                self.history().len() as int,
                            ));
                        }
                    }
                    lemma_within(base, self.history(), owed);
                }
            }
            match r {
                Ok((next, next_id)) => {
                    offset = next;
                    id = next_id;
                },
                Err(e) => {
                    return Err(e);
                },
            }
            proof {
                index = index + 1;
            }
            if progress_due(at / 128, size) {
                progress(at, size);
            }
        }
        let ghost before = *self;
        let r = self.finish();
        proof {
            let e0 = old(self).events();
            let w0 = old(self).waits();
            let since = self.events_since(before);
            match r {
                Ok(()) => {
                    assert((before.events() + seq![Some(ACK)]).skip(before.events().len() as int)
                        =~= seq![Some(ACK)]);
                },
                Err(Error::BadPacketType(b)) => {
                    assert((before.events() + seq![Some(b)]).skip(before.events().len() as int)
                        =~= seq![Some(b)]);
                },
                Err(Error::TimedOut) => {
                    assert((before.events() + seq![None::<u8>]).skip(before.events().len() as int)
                        =~= seq![None::<u8>]);
                },
                _ => {
                    assert((before.events() + Seq::<Option<u8>>::empty()).skip(
                        before.events().len() as int,
                    ) =~= Seq::<Option<u8>>::empty());
                },
            }
            reveal(begin_block);
            lemma_due(data@, before.packet().data(), before.sent(), index);
            let was = upload_trace(data@, start, ev);
            let eot = Action::Sent(END_OF_TRANSMISSION);
            assert(as_sends(seq![END_OF_TRANSMISSION]) =~= Seq::<Action>::empty().push(eot));
            assert(before.history() + Seq::<Action>::empty().push(eot) =~= before.history().push(
                eot,
            ));
            assert(before.sent().is_prefix_of(before.sent().push(END_OF_TRANSMISSION))) by {
                assert(before.sent() =~= before.sent().push(END_OF_TRANSMISSION).subrange(
                    0,
                    before.sent().len() as int,
                ));
            }
            assert(before.sent().is_prefix_of(before.sent()));
            assert(self.sent().is_prefix_of(self.sent()));
            if since.len() == 1 {
                assert(ev + since =~= ev.push(since[0]));
                lemma_upload_push(data@, start, ev, since[0]);
                lemma_upload_trace_push(data@, start, ev, since[0]);
                let u0 = upload_from(data@, start, ev);
                assert(u0.sent.skip(u0.sent.len() as int) =~= Seq::<u8>::empty());
                assert(was.push(Action::Read(since[0])) + as_sends(Seq::<u8>::empty())
                    =~= was.push(Action::Read(since[0])));
                assert(base + was.push(Action::Read(since[0])) =~= (base + was).push(
                    Action::Read(since[0]),
                ));
            } else {
                assert(ev + since =~= ev);
                assert(before.history().is_prefix_of(base + was)) by {
                    assert(before.history() =~= (base + was).subrange(
                        0,
                        before.history().len() as int,
                    ));
                }
                assert((base + was).is_prefix_of(base + was));
            }
            assert(base.is_prefix_of(self.history())) by {
                assert(base =~= before.history().subrange(0, base.len() as int));
                assert(base =~= self.history().subrange(0, base.len() as int));
            }
            lemma_within(base, self.history(), upload_trace(data@, start, ev + since));
            assert(e0 + ev + since =~= e0 + (ev + since));
            assert(w0 + Seq::new(ev.len(), |i: int| patient()) + Seq::new(
                since.len(),
                |i: int| patient(),
            ) =~= w0 + Seq::new((ev + since).len(), |i: int| patient()));
            assert((e0 + (ev + since)).skip(e0.len() as int) =~= ev + since);
        }
        r
    }
}

} // verus!
