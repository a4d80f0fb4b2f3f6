//! A whole ZMODEM session on a serial line.

use vstd::prelude::*;
use crate::consts::ZRPOS;
use crate::device::{as_events, as_reads, as_sends, Action, Error, SerialDevice};
use crate::proto::{le_bytes, FrameEncoding, FrameType, PacketType};
use crate::recv::{bump_by, copy_into, Receiver, READ_LIMIT};
use crate::session::{
    bump, counted_errors, failed, frame_next, fresh_header, fresh_packet, fresh_reading,
    header_next, lemma_header_step, lemma_header_trace, lemma_line_faults_concat, lemma_packet_step,
    lemma_packet_trace, lemma_session_closing, lemma_session_concat, lemma_session_trace_concat,
    lemma_session_waits_concat, packet_crc_len, packet_encoding, reads_then_replies, session_call,
    session_from, session_line_faults, session_run, session_start, session_trace, session_wait,
    session_waits, settle_header, settle_packet, zfin_text, zrinit_text, zrpos_text, Failure, Phase,
    Reading, Run, Session,
};
use crate::time::Duration;
use crate::wire::{
    header_run, header_waits, long_wait, packet_check_ok, packet_run, PacketScan, ADVERTISE_MILLIS,
    SUBPACKET_LIMIT, TIMEOUT_SECS,
};

verus! {

/// The failure that the error `e` tells of.
pub open spec fn failure_of<E>(e: Error<E>) -> Failure {
    match e {
        Error::InvalidFrameEncoding(encoding) => Failure::InvalidFrameEncoding(encoding.0),
        Error::UnexpectedFrame(h) => Failure::UnexpectedFrame {
            encoding: h.encoding.0,
            body: h.checked_bytes(),
        },
        Error::InvalidHex(x) => Failure::InvalidHex(x),
        Error::InvalidEscape(x) => Failure::InvalidEscape(x),
        Error::Overflow => Failure::Overflow,
        Error::UnexpectedByte(x) => Failure::UnexpectedByte(x),
        _ => Failure::TimedOut,
    }
}

/// What was read between one moment and a later one is what was read up
/// to a moment between them and then what was read since.
pub proof fn lemma_skip_chain<T>(a: Seq<T>, b: Seq<T>, c: Seq<T>)
    requires
        a.is_prefix_of(b),
        b.is_prefix_of(c),
    ensures
        a.is_prefix_of(c),
        c.skip(a.len() as int) == b.skip(a.len() as int) + c.skip(b.len() as int),
{
    assert(c.skip(a.len() as int) =~= b.skip(a.len() as int) + c.skip(b.len() as int));
}

/// Data put behind the data taken before leaves the output holding all
/// the data taken, and behind it what it held at first.
pub proof fn lemma_output_grows(
    first: Seq<u8>,
    before: Seq<u8>,
    after: Seq<u8>,
    had: Seq<u8>,
    has: Seq<u8>,
)
    requires
        had.is_prefix_of(has),
        has.len() <= first.len(),
        before.len() == first.len(),
        before == had + first.skip(had.len() as int),
        after == before.take(had.len() as int) + has.skip(had.len() as int) + before.skip(
            has.len() as int,
        ),
    ensures
        after == has + first.skip(has.len() as int),
{
    assert(before.take(had.len() as int) =~= had);
    assert(had + has.skip(had.len() as int) =~= has);
    assert(before.skip(has.len() as int) =~= first.skip(has.len() as int));
}

impl<D: SerialDevice> Receiver<D> {
    /// Whether what went over the line since `before` is `trace`, in that
    /// order: all of it, or, if the line failed, its start. The line has
    /// failed only as `r` tells, in the last call that was made of it,
    /// and every read asked of it has used up one of the reads left.
    pub open spec fn traced<T>(
        self,
        before: Self,
        trace: Seq<Action>,
        r: Result<T, Error<D::Error>>,
    ) -> bool {
        &&& self.history() == before.history() + self.history_since(before)
        &&& self.history_since(before).is_prefix_of(trace)
        &&& !(r matches Err(Error::Device(_))) ==> self.history_since(before) == trace
        &&& self.failed_as(before, r)
        &&& self.reads_counted(before)
    }

    /// Whether the bytes sent since `before`, and nothing else, are those
    /// of `text`: all of them, or, if the line failed, its start.
    pub open spec fn replied<T>(
        self,
        before: Self,
        text: Seq<u8>,
        r: Result<T, Error<D::Error>>,
    ) -> bool {
        &&& self.only_sent_since(before)
        &&& self.sent_since(before).is_prefix_of(text)
        &&& !(r matches Err(Error::Device(_))) ==> self.sent_since(before) == text
    }

    /// A step of a session in which `mid` is reached by reads alone and
    /// `text` is then sent in answer: every read stands before the answer.
    pub proof fn lemma_traced_reply<T>(
        self,
        mid: Self,
        before: Self,
        capacity: nat,
        run: Run,
        base: Seq<u8>,
        text: Seq<u8>,
        r: Result<T, Error<D::Error>>,
    )
        requires
            mid.history() == before.history() + as_reads(mid.events_since(before)),
            mid.sent() == before.sent(),
            before.sent() == base + run.replies,
            self.replied(mid, text, r),
            self.failed_as(before, r),
            self.reads_counted(before),
            reads_then_replies(capacity, run, mid.events_since(before)),
            session_from(capacity, run, mid.events_since(before)).replies == run.replies + text,
        ensures
            self.events_since(before) == mid.events_since(before),
            self.traced(
                before,
                session_trace(capacity, run, self.events_since(before)),
                r,
            ),
            self.sent().is_prefix_of(
                base + session_from(capacity, run, self.events_since(before)).replies,
            ),
            !(r matches Err(Error::Device(_))) ==> self.sent() == base + session_from(
                capacity,
                run,
                self.events_since(before),
            ).replies,
    {
        let reads = mid.events_since(before);
        let part = self.sent_since(mid);
        let h = before.history();
        let whole = h + (as_reads(reads) + as_sends(part));
        assert(self.history() =~= whole);
        assert(whole.skip(h.len() as int) =~= as_reads(reads) + as_sends(part));
        assert((run.replies + text).skip(run.replies.len() as int) =~= text);
        assert((as_reads(reads) + as_sends(part)).is_prefix_of(as_reads(reads) + as_sends(text)));
        assert(self.sent() =~= base + (run.replies + part));
        assert((base + (run.replies + part)).is_prefix_of(base + (run.replies + text)));
    }

    /// What was sent, if it is the start of what was to be sent behind
    /// `before`, is so as `sent_since` has it.
    pub proof fn lemma_sent_within(self, before: Self, replies: Seq<u8>)
        requires
            before.sent().is_prefix_of(self.sent()),
            self.sent().is_prefix_of(before.sent() + replies),
        ensures
            self.sent() == before.sent() + self.sent_since(before),
            self.sent_since(before).is_prefix_of(replies),
    {
        let a = before.sent();
        assert(self.sent() =~= a + self.sent().skip(a.len() as int));
        assert(self.sent_since(before) =~= (a + replies).skip(a.len() as int).take(
            self.sent_since(before).len() as int,
        ));
        assert((a + replies).skip(a.len() as int) =~= replies);
    }

    /// What went over the line up to `mid` and then since is what went
    /// over it in all.
    pub proof fn lemma_traced_chain<T>(
        self,
        mid: Self,
        before: Self,
        first: Seq<Action>,
        second: Seq<Action>,
        r: Result<T, Error<D::Error>>,
    )
        requires
            mid.traced(before, first, Ok::<(), Error<D::Error>>(())),
            self.traced(mid, second, r),
            before.events().len() <= mid.events().len() <= self.events().len(),
        ensures
            self.traced(before, first + second, r),
    {
        let h = before.history();
        let part = self.history_since(mid);
        assert(self.history() =~= h + (first + part));
        assert((h + (first + part)).skip(h.len() as int) =~= first + part);
        assert((first + part).is_prefix_of(first + second));
    }

    /// Whether the count of faulty line-end bytes has grown since `before`
    /// by those that the reads made since bring to a session that stood
    /// at `run`.
    pub open spec fn line_ends_counted(self, before: Self, capacity: nat, run: Run) -> bool {
        self.line_end_errors() == bump_by(
            before.line_end_errors(),
            session_line_faults(capacity, run, self.events_since(before)),
        )
    }

    /// Whether this receiver and `session` stand where `after` says, for a
    /// step that ended with `r`: the frame checks are counted as `after`
    /// counts them; what has been sent behind `base` is the start of what
    /// `after` holds as sent, and all of it unless the line failed; the
    /// session goes on from `after`, or has failed as `r` tells.
    pub open spec fn settled<T>(
        self,
        session: Session,
        base: Seq<u8>,
        after: Run,
        r: Result<T, Error<D::Error>>,
    ) -> bool {
        &&& self.sent().is_prefix_of(base + after.replies)
        &&& (r matches Err(Error::Device(_))) ==> self.faults().last().tried == session_call(
            after,
            self.sent().len() - base.len(),
        )
        &&& self.crc_errors() == counted_errors(after)
        &&& !(r matches Err(Error::Device(_))) ==> self.sent() == base + after.replies
            && self.crc_errors() == after.crc_errors
        &&& match r {
            Ok(_) => after.reading == fresh_reading(after.phase) && after.phase == session.phase()
                && after.started == session.started(),
            Err(Error::Device(_)) => true,
            Err(e) => after.reading == Reading::Failed(failure_of(e)),
        }
    }

    /// Whether this receiver is `before` after it has run a session into
    /// an output that held `output` and now holds `written`, with the
    /// result `r`: what came of the session is what `session_run` makes of
    /// the reads that were made. That is the data in the output; the
    /// count of failed frame checks, with a header counted as soon as its
    /// frame check has been read; the count of faulty line-end bytes; how
    /// long each read was to wait; unless the line failed, the frames
    /// sent; and the result, where `TimedOut` tells of a read that timed
    /// out or of a receiver that had no reads left when a header or
    /// subpacket was to begin. What went
    /// over the line is the first announcement and then `session_trace`:
    /// every answer stands behind the read that caused it and before the
    /// next read. If the line failed, what was sent and what went over the
    /// line are the start of that, the failed call was the last one made
    /// of the line, and the error is the line's. Every read asked of the
    /// line has used up one of the reads that were left.
    pub open spec fn ran_session(
        self,
        before: Self,
        output: Seq<u8>,
        written: Seq<u8>,
        r: Result<usize, Error<D::Error>>,
    ) -> bool {
        let events = self.events_since(before);
        let run = session_run(output.len(), before.crc_errors(), events);
        &&& self.later_than(before)
        &&& written.len() == output.len()
        &&& before.events().is_prefix_of(self.events())
        &&& self.waits_since(before) == session_waits(
            output.len(),
            session_start(before.crc_errors()),
            events,
            events.len(),
        )
        &&& run.data.len() <= written.len()
        &&& written == run.data + output.skip(run.data.len() as int)
        &&& self.sent() == before.sent() + self.sent_since(before)
        &&& self.sent_since(before).is_prefix_of(run.replies)
        &&& self.traced(
            before,
            as_sends(zrinit_text()) + session_trace(
                output.len(),
                session_start(before.crc_errors()),
                events,
            ),
            r,
        )
        &&& self.crc_errors() == counted_errors(run)
        &&& (r matches Err(Error::Device(_))) ==> self.faults().last().tried == session_call(
            run,
            self.sent().len() - before.sent().len(),
        )
        &&& !(r matches Err(Error::Device(_))) ==> self.sent() == before.sent() + run.replies
            && self.crc_errors() == run.crc_errors
        &&& self.line_ends_counted(before, output.len(), session_start(before.crc_errors()))
        &&& match r {
            Ok(n) => run.reading is Done && n == run.data.len(),
            Err(Error::Device(_)) => true,
            Err(Error::TimedOut) => run.reading == Reading::Failed(Failure::TimedOut) || (
            self.reads_left() == 0 && run.reading == fresh_reading(run.phase)),
            Err(e) => run.reading == Reading::Failed(failure_of(e)),
        }
    }

    /// Sends what is owed on entering the phase that `session` has come
    /// to: `ZRINIT` on entering `Idle`, `ZFIN` on entering `Finishing`.
    fn answer_header(&mut self, session: &Session) -> (r: Result<(), Error<D::Error>>)
        ensures
            final(self).sent_result(
                *old(self),
                match session.phase() {
                    Phase::Idle => zrinit_text(),
                    Phase::Finishing => zfin_text(),
                    _ => Seq::<u8>::empty(),
                },
                r,
            ),
    {
        match session.current() {
            Phase::Idle => self.send_zrinit(),
            Phase::Finishing => self.send_zfin(),
            _ => {
                proof {
                    self.lemma_sent_nothing();
                }
                Ok(())
            },
        }
    }

    /// One step of a session that waits for a frame header: reads the
    /// header, lets the session take it, and answers.
    #[verifier::rlimit(30)]
    fn advance_header(
        &mut self,
        session: &mut Session,
        Ghost(run): Ghost<Run>,
        Ghost(base): Ghost<Seq<u8>>,
        Ghost(capacity): Ghost<nat>,
    ) -> (r: Result<(), Error<D::Error>>)
        requires
            old(session).phase() is Idle || old(session).phase() is Streaming,
            run.phase == old(session).phase(),
            run.started == old(session).started(),
            run.reading == fresh_header(),
            old(self).sent() == base + run.replies,
            old(self).crc_errors() == run.crc_errors,
            old(self).reads_left() > 0,
        ensures
            final(self).later_than(*old(self)),
            final(self).reads_left() < old(self).reads_left(),
            old(self).events().is_prefix_of(final(self).events()),
            old(self).waits().is_prefix_of(final(self).waits()),
            final(self).waits_since(*old(self)) == session_waits(
                capacity,
                run,
                final(self).events_since(*old(self)),
                final(self).events_since(*old(self)).len(),
            ),
            final(session).offset() == old(session).offset(),
            session_from(capacity, run, final(self).events_since(*old(self))).data == run.data,
            final(self).line_ends_counted(*old(self), capacity, run),
            final(self).traced(
                *old(self),
                session_trace(capacity, run, final(self).events_since(*old(self))),
                r,
            ),
            final(self).settled(
                *final(session),
                base,
                session_from(capacity, run, final(self).events_since(*old(self))),
                r,
            ),
    {
        let timeout = if session.has_started() {
            Duration::from_secs(TIMEOUT_SECS)
        } else {
            Duration::from_millis(ADVERTISE_MILLIS)
        };
        let r = self.receive_frame_header(timeout);
        let ghost mid = *self;
        let ghost w = self.heard_since(*old(self));
        let ghost hushed = r matches Err(Error::TimedOut);
        let ghost read = settle_header(run, header_run(w));
        proof {
            lemma_header_step(capacity, run, w, hushed);
            lemma_header_trace(capacity, run, w, hushed);
            let hush = if hushed {
                seq![None::<u8>]
            } else {
                Seq::<Option<u8>>::empty()
            };
            let since = as_events(w) + hush;
            let e = old(self).events();
            let asked = header_waits(w, since.len(), timeout.as_pair());
            assert((e + since).skip(e.len() as int) =~= since);
            assert(e.is_prefix_of(e + since));
            assert(old(self).received().is_prefix_of(old(self).received() + w));
            assert(old(self).waits().is_prefix_of(old(self).waits() + asked));
            assert((old(self).waits() + asked).skip(old(self).waits().len() as int) =~= asked);
            assert(run.replies + Seq::<u8>::empty() =~= run.replies);
            self.lemma_sent_nothing();
        }
        let frame = match r {
            Ok(frame) => Some(frame),
            Err(Error::TimedOut) => {
                if !session.is_idle() {
                    proof {
                        self.lemma_traced_reply(
                            mid,
                            *old(self),
                            capacity,
                            run,
                            base,
                            Seq::empty(),
                            r,
                        );
                    }
                    return Err(Error::TimedOut);
                }
                None
            },
            Err(e) => {
                proof {
                    self.lemma_traced_reply(mid, *old(self), capacity, run, base, Seq::empty(), r);
                }
                return Err(e);
            },
        };
        let r = match frame {
            Some(frame) => {
                proof {
                    let values = header_run(w)->Done_values;
                    let encoding = header_run(w)->Done_encoding;
                    assert(values.len() >= 5);
                    assert(frame.checked_bytes()[0] == values.take(5)[0]);
                    assert(frame.frame_type == FrameType(values[0]));
                    assert(frame.encoding == FrameEncoding(encoding));
                    assert(header_next(run.phase, frame) == frame_next(
                        run.phase,
                        FrameEncoding(encoding),
                        FrameType(values[0]),
                    ));
                }
                match session.on_header::<D::Error>(frame) {
                    Ok(()) => {},
                    Err(e) => {
                        proof {
                            self.lemma_traced_reply(
                                mid,
                                *old(self),
                                capacity,
                                run,
                                base,
                                Seq::empty(),
                                Err::<(), _>(e),
                            );
                        }
                        return Err(e);
                    },
                }
                self.answer_header(session)
            },
            None => self.send_zrinit(),
        };
        proof {
            let text = self.sent_since(mid);
            let none = Seq::<u8>::empty();
            assert(run.replies.skip(run.replies.len() as int) =~= none);
            assert((run.replies + zrinit_text()).skip(run.replies.len() as int) =~= zrinit_text());
            assert((run.replies + zfin_text()).skip(run.replies.len() as int) =~= zfin_text());
            let owed = session_from(capacity, run, mid.events_since(*old(self))).replies.skip(
                run.replies.len() as int,
            );
            assert(run.replies + owed =~= session_from(
                capacity,
                run,
                mid.events_since(*old(self)),
            ).replies);
            self.lemma_traced_reply(mid, *old(self), capacity, run, base, owed, r);
            assert(old(self).sent().is_prefix_of(self.sent())) by {
                assert(old(self).sent().is_prefix_of(mid.sent() + text));
            }
        }
        r
    }

    /// Reads the data subpacket that a session waits for.
    #[verifier::rlimit(30)]
    fn read_packet(
        &mut self,
        session: &Session,
        buf: &mut [u8],
        Ghost(run): Ghost<Run>,
        Ghost(capacity): Ghost<nat>,
    ) -> (r: Result<(PacketType, usize), Error<D::Error>>)
        requires
            session.phase() is AwaitMeta || session.phase() is Data,
            run.phase == session.phase(),
            run.reading == fresh_packet(),
            old(self).crc_errors() == run.crc_errors,
            old(self).reads_left() > 0,
            old(buf)@.len() >= SUBPACKET_LIMIT,
        ensures
            final(self).sent() == old(self).sent(),
            final(self).reads_left() < old(self).reads_left(),
            final(self).history() == old(self).history() + as_reads(
                final(self).events_since(*old(self)),
            ),
            reads_then_replies(capacity, run, final(self).events_since(*old(self))),
            final(self).read_as(*old(self), long_wait(), r),
            final(self).line_ends_counted(*old(self), capacity, run),
            old(self).received().is_prefix_of(final(self).received()),
            old(self).events().is_prefix_of(final(self).events()),
            old(self).waits().is_prefix_of(final(self).waits()),
            final(self).waits_since(*old(self)) == session_waits(
                capacity,
                run,
                final(self).events_since(*old(self)),
                final(self).events_since(*old(self)).len(),
            ),
            final(buf)@.len() == old(buf)@.len(),
            ({
                let after = session_from(capacity, run, final(self).events_since(*old(self)));
                let scan = packet_run(
                    SUBPACKET_LIMIT as nat,
                    packet_crc_len(run.phase),
                    final(self).heard_since(*old(self)),
                );
                match r {
                    Ok((kind, len)) => {
                        &&& len <= final(buf)@.len()
                        &&& after == settle_packet(capacity, run, scan)
                        &&& scan matches PacketScan::Check { payload, marker, crc, .. }
                        &&& payload == final(buf)@.take(len as int)
                        &&& marker == kind.0
                        &&& crc.len() == packet_crc_len(run.phase)
                        &&& final(self).crc_errors() == (if packet_check_ok(
                            packet_encoding(run.phase),
                            payload,
                            marker,
                            crc,
                        ) {
                            run.crc_errors
                        } else {
                            bump(run.crc_errors)
                        })
                    },
                    Err(Error::Device(_)) => after.data == run.data && after.replies
                        == run.replies && final(self).crc_errors() == counted_errors(after)
                        && session_wait(after) == long_wait(),
                    Err(e) => after == failed(run, failure_of(e)) && final(self).crc_errors()
                        == run.crc_errors,
                }
            }),
    {
        let encoding = match session.current() {
            Phase::AwaitMeta { encoding } => encoding,
            Phase::Data { encoding } => encoding,
            _ => FrameEncoding(0),
        };
        let r = self.receive_data_packet(encoding, buf);
        proof {
            let w = self.heard_since(*old(self));
            let hushed = r matches Err(Error::TimedOut);
            lemma_packet_step(capacity, run, w, hushed);
            lemma_packet_trace(capacity, run, w, hushed);
            old(self).lemma_line_end_errors_bounded();
            let hush = if hushed {
                seq![None::<u8>]
            } else {
                Seq::<Option<u8>>::empty()
            };
            let since = as_events(w) + hush;
            let e = old(self).events();
            let asked = Seq::new(since.len(), |i: int| long_wait());
            assert(e + as_events(w) + hush =~= e + since);
            assert((e + since).skip(e.len() as int) =~= since);
            assert(e.is_prefix_of(e + since));
            assert(old(self).received().is_prefix_of(old(self).received() + w));
            assert(old(self).waits().is_prefix_of(old(self).waits() + asked));
            assert((old(self).waits() + asked).skip(old(self).waits().len() as int) =~= asked);
        }
        r
    }

    /// One step of a session that waits for a data subpacket: reads the
    /// subpacket, lets the session take it, and puts file data into
    /// `output` behind the data taken before.
    #[verifier::rlimit(30)]
    fn advance_packet(
        &mut self,
        session: &mut Session,
        output: &mut [u8],
        buf: &mut [u8],
        Ghost(run): Ghost<Run>,
        Ghost(base): Ghost<Seq<u8>>,
    ) -> (r: Result<(), Error<D::Error>>)
        requires
            old(session).phase() is AwaitMeta || old(session).phase() is Data,
            run.phase == old(session).phase(),
            run.started == old(session).started(),
            run.reading == fresh_packet(),
            run.data.len() == old(session).offset(),
            run.data.len() <= old(output)@.len(),
            old(self).sent() == base + run.replies,
            old(self).crc_errors() == run.crc_errors,
            old(self).reads_left() > 0,
            old(buf)@.len() >= SUBPACKET_LIMIT,
        ensures
            final(self).later_than(*old(self)),
            final(self).reads_left() < old(self).reads_left(),
            old(self).events().is_prefix_of(final(self).events()),
            old(self).waits().is_prefix_of(final(self).waits()),
            final(self).waits_since(*old(self)) == session_waits(
                old(output)@.len() as nat,
                run,
                final(self).events_since(*old(self)),
                final(self).events_since(*old(self)).len(),
            ),
            final(self).traced(
                *old(self),
                session_trace(
                    old(output)@.len() as nat,
                    run,
                    final(self).events_since(*old(self)),
                ),
                r,
            ),
            final(self).line_ends_counted(*old(self), old(output)@.len() as nat, run),
            final(buf)@.len() == old(buf)@.len(),
            final(output)@.len() == old(output)@.len(),
            ({
                let after = session_from(
                    old(output)@.len() as nat,
                    run,
                    final(self).events_since(*old(self)),
                );
                &&& run.data.is_prefix_of(after.data)
                &&& after.data.len() <= final(output)@.len()
                &&& r is Ok ==> after.data.len() == final(session).offset()
                &&& final(output)@ == old(output)@.take(run.data.len() as int) + after.data.skip(
                    run.data.len() as int,
                ) + old(output)@.skip(after.data.len() as int)
                &&& final(self).settled(*final(session), base, after, r)
            }),
    {
        let ghost capacity = output@.len() as nat;
        let r = self.read_packet(session, buf, Ghost(run), Ghost(capacity));
        let ghost mid = *self;
        proof {
            assert(old(self).sent().is_prefix_of(old(self).sent()));
            assert(run.data.is_prefix_of(run.data));
            assert(run.data.skip(run.data.len() as int) =~= Seq::<u8>::empty());
            assert(output@ =~= output@.take(run.data.len() as int) + Seq::<u8>::empty()
                + output@.skip(run.data.len() as int));
            assert(run.replies + Seq::<u8>::empty() =~= run.replies);
            self.lemma_sent_nothing();
        }
        let (kind, len) = match r {
            Ok(found) => found,
            Err(e) => {
                proof {
                    self.lemma_traced_reply(mid, *old(self), capacity, run, base, Seq::empty(), r);
                }
                return Err(e);
            },
        };
        let ghost scan = packet_run(
            SUBPACKET_LIMIT as nat,
            packet_crc_len(run.phase),
            self.heard_since(*old(self)),
        );
        let r = self.take_packet(session, output, buf, kind, len, Ghost(run), Ghost(base), Ghost(scan));
        proof {
            let after = settle_packet(capacity, run, scan);
            let owed = after.replies.skip(run.replies.len() as int);
            assert(run.replies + owed =~= after.replies);
            self.lemma_traced_reply(mid, *old(self), capacity, run, base, owed, r);
            assert(old(self).sent().is_prefix_of(self.sent())) by {
                assert(old(self).sent().is_prefix_of(mid.sent() + self.sent_since(mid)));
            }
        }
        r
    }

    /// Lets the session take a subpacket that has been read to its end,
    /// and does what follows: file data goes into `output` behind the data
    /// taken before, metadata is answered with `ZRPOS`.
    #[verifier::rlimit(30)]
    fn take_packet(
        &mut self,
        session: &mut Session,
        output: &mut [u8],
        buf: &[u8],
        kind: PacketType,
        len: usize,
        Ghost(run): Ghost<Run>,
        Ghost(base): Ghost<Seq<u8>>,
        Ghost(scan): Ghost<PacketScan>,
    ) -> (r: Result<(), Error<D::Error>>)
        requires
            old(session).phase() is AwaitMeta || old(session).phase() is Data,
            run.phase == old(session).phase(),
            run.started == old(session).started(),
            run.data.len() == old(session).offset(),
            run.data.len() <= old(output)@.len(),
            old(self).sent() == base + run.replies,
            len <= buf@.len(),
            scan matches PacketScan::Check { payload, marker, crc, .. } && payload == buf@.take(
                len as int,
            ) && marker == kind.0 && crc.len() == packet_crc_len(run.phase)
                && old(self).crc_errors() == (if packet_check_ok(
                packet_encoding(run.phase),
                payload,
                marker,
                crc,
            ) {
                run.crc_errors
            } else {
                bump(run.crc_errors)
            }),
        ensures
            final(output)@.len() == old(output)@.len(),
            final(self).line_end_errors() == old(self).line_end_errors(),
            final(self).failed_as(*old(self), r),
            (r matches Err(Error::Device(_))) ==> final(self).faults().last().tried is Send,
            ({
                let after = settle_packet(old(output)@.len() as nat, run, scan);
                &&& run.replies.is_prefix_of(after.replies)
                &&& final(self).replied(
                    *old(self),
                    after.replies.skip(run.replies.len() as int),
                    r,
                )
                &&& run.data.is_prefix_of(after.data)
                &&& after.data.len() <= final(output)@.len()
                &&& r is Ok ==> after.data.len() == final(session).offset()
                &&& final(output)@ == old(output)@.take(run.data.len() as int) + after.data.skip(
                    run.data.len() as int,
                ) + old(output)@.skip(after.data.len() as int)
                &&& final(self).settled(*final(session), base, after, r)
            }),
    {
        let ghost payload = buf@.take(len as int);
        let at = session.bytes_taken();
        let size = output.len();
        let was_data = match session.current() {
            Phase::Data { .. } => true,
            _ => false,
        };
        proof {
            assert(run.data.is_prefix_of(run.data));
            assert(run.data.is_prefix_of(run.data + payload));
            assert(run.data.skip(run.data.len() as int) =~= Seq::<u8>::empty());
            assert((run.data + payload).skip(run.data.len() as int) =~= payload);
            assert(output@ =~= output@.take(run.data.len() as int) + Seq::<u8>::empty()
                + output@.skip(run.data.len() as int));
            self.lemma_sent_nothing();
            let none = Seq::<u8>::empty();
            assert(run.replies.is_prefix_of(run.replies));
            assert(run.replies.skip(run.replies.len() as int) =~= none);
            assert(run.replies.is_prefix_of(run.replies + zrpos_text()));
            assert((run.replies + zrpos_text()).skip(run.replies.len() as int) =~= zrpos_text());
            assert(base + run.replies + none =~= base + run.replies);
            assert((base + run.replies).is_prefix_of(base + run.replies));
        }
        match session.on_packet(kind, len, size) {
            Ok(()) => {},
            Err(e) => {
                return Err(e);
            },
        }
        if was_data {
            copy_into(output, at, buf, len);
            proof {
                assert(output@ =~= old(output)@.take(run.data.len() as int) + payload + old(output)@.skip((run.data.len() + payload.len()) as int));
            }
            Ok(())
        } else {
            let r = self.send_zrpos(0);
            proof {
                assert(seq![ZRPOS] + le_bytes(0) =~= seq![ZRPOS, 0, 0, 0, 0]);
                let part = self.sent_since(*old(self));
                assert(self.sent() =~= base + (run.replies + part));
                assert((base + (run.replies + part)).is_prefix_of(base + (run.replies
                    + zrpos_text())));
            }
            r
        }
    }

    /// One step of a session: reads the header or the subpacket that the
    /// session waits for, lets the session take it, and does what
    /// follows from it.
    #[verifier::rlimit(30)]
    fn advance(
        &mut self,
        session: &mut Session,
        output: &mut [u8],
        buf: &mut [u8],
        Ghost(run): Ghost<Run>,
        Ghost(base): Ghost<Seq<u8>>,
    ) -> (r: Result<(), Error<D::Error>>)
        requires
            !(old(session).phase() is Finishing),
            run.phase == old(session).phase(),
            run.started == old(session).started(),
            run.reading == fresh_reading(run.phase),
            run.data.len() == old(session).offset(),
            run.data.len() <= old(output)@.len(),
            old(self).sent() == base + run.replies,
            old(self).crc_errors() == run.crc_errors,
            old(self).reads_left() > 0,
            old(buf)@.len() >= SUBPACKET_LIMIT,
        ensures
            final(self).later_than(*old(self)),
            final(self).reads_left() < old(self).reads_left(),
            old(self).events().is_prefix_of(final(self).events()),
            old(self).waits().is_prefix_of(final(self).waits()),
            final(self).waits_since(*old(self)) == session_waits(
                old(output)@.len() as nat,
                run,
                final(self).events_since(*old(self)),
                final(self).events_since(*old(self)).len(),
            ),
            final(self).traced(
                *old(self),
                session_trace(
                    old(output)@.len() as nat,
                    run,
                    final(self).events_since(*old(self)),
                ),
                r,
            ),
            final(self).line_ends_counted(*old(self), old(output)@.len() as nat, run),
            final(buf)@.len() == old(buf)@.len(),
            final(output)@.len() == old(output)@.len(),
            ({
                let after = session_from(
                    old(output)@.len() as nat,
                    run,
                    final(self).events_since(*old(self)),
                );
                &&& run.data.is_prefix_of(after.data)
                &&& after.data.len() <= final(output)@.len()
                &&& r is Ok ==> after.data.len() == final(session).offset()
                &&& final(output)@ == old(output)@.take(run.data.len() as int) + after.data.skip(
                    run.data.len() as int,
                ) + old(output)@.skip(after.data.len() as int)
                &&& final(self).settled(*final(session), base, after, r)
            }),
    {
        match session.current() {
            Phase::AwaitMeta { .. } => self.advance_packet(
                session,
                output,
                buf,
                Ghost(run),
                Ghost(base),
            ),
            Phase::Data { .. } => self.advance_packet(session, output, buf, Ghost(run), Ghost(base)),
            _ => {
                let r = self.advance_header(
                    session,
                    Ghost(run),
                    Ghost(base),
                    Ghost(output@.len() as nat),
                );
                proof {
                    let n = run.data.len() as int;
                    assert(run.data.is_prefix_of(run.data));
                    assert(run.data.skip(n) =~= Seq::<u8>::empty());
                    assert(output@ =~= output@.take(n) + Seq::<u8>::empty() + output@.skip(n));
                }
                r
            },
        }
    }

    /// The end of a session: reads the two bytes `O` `O`.
    #[verifier::rlimit(30)]
    fn finish(
        &mut self,
        Ghost(run): Ghost<Run>,
        Ghost(base): Ghost<Seq<u8>>,
        Ghost(capacity): Ghost<nat>,
    ) -> (r: Result<(), Error<D::Error>>)
        requires
            run.reading == (Reading::Closing { seen: 0 }),
            old(self).sent() == base + run.replies,
            old(self).crc_errors() == run.crc_errors,
        ensures
            final(self).later_than(*old(self)),
            old(self).events().is_prefix_of(final(self).events()),
            old(self).waits().is_prefix_of(final(self).waits()),
            final(self).waits_since(*old(self)) == session_waits(
                capacity,
                run,
                final(self).events_since(*old(self)),
                final(self).events_since(*old(self)).len(),
            ),
            final(self).sent() == old(self).sent(),
            final(self).line_ends_counted(*old(self), capacity, run),
            final(self).traced(
                *old(self),
                session_trace(capacity, run, final(self).events_since(*old(self))),
                r,
            ),
            ({
                let after = session_from(capacity, run, final(self).events_since(*old(self)));
                &&& after.data == run.data
                &&& after.replies == run.replies
                &&& (r matches Err(Error::Device(_))) ==> final(self).faults().last().tried
                    == session_call(after, final(self).sent().len() - base.len())
                &&& final(self).crc_errors() == counted_errors(after)
                &&& !(r matches Err(Error::Device(_))) ==> final(self).sent() == base
                    + after.replies && final(self).crc_errors() == after.crc_errors
                &&& match r {
                    Ok(()) => after.reading is Done,
                    Err(Error::Device(_)) => true,
                    Err(e) => after.reading == Reading::Failed(failure_of(e)),
                }
            }),
    {
        let r = self.receive_over_and_out();
        proof {
            let w = self.heard_since(*old(self));
            let hushed = r matches Err(Error::TimedOut);
            let hush = if hushed {
                seq![None::<u8>]
            } else {
                Seq::<Option<u8>>::empty()
            };
            let since = as_events(w) + hush;
            let e = old(self).events();
            let long = Seq::new(since.len(), |i: int| long_wait());
            assert(e + as_events(w) + hush =~= e + since);
            assert((e + since).skip(e.len() as int) =~= since);
            assert(e.is_prefix_of(e + since));
            assert(old(self).received().is_prefix_of(old(self).received() + w));
            assert(old(self).waits().is_prefix_of(old(self).waits() + long));
            assert((old(self).waits() + long).skip(old(self).waits().len() as int) =~= long);
            lemma_session_closing(capacity, run, w, hushed);
            old(self).lemma_line_end_errors_bounded();
            let h = old(self).history();
            assert((h + as_reads(since)).skip(h.len() as int) =~= as_reads(since));
            assert(as_reads(since).is_prefix_of(as_reads(since)));
        }
        r
    }

    /// Runs a whole session: announces the receiver until a sender offers
    /// a file, takes the file's data subpackets into `output` one behind
    /// the other, and on `ZFIN` answers with `ZFIN` and reads `O` `O`.
    /// Returns how many bytes of `output` were written.
    ///
    /// What comes of the session is what `session_run` makes of the reads
    /// that were made: the data in `output`, the frames sent, the count of
    /// failed frame checks, and the result. Until the first `ZFILE` the
    /// wait for a header is `ADVERTISE_MILLIS`, from then on `TIMEOUT_SECS`.
    /// With no reads left before a header or subpacket is begun, the
    /// session ends with `TimedOut`.
    #[verifier::rlimit(30)]
    pub fn receive(&mut self, output: &mut [u8]) -> (r: Result<usize, Error<D::Error>>)
        ensures
            final(self).ran_session(*old(self), old(output)@, final(output)@, r),
    {
        let ghost base = self.sent();
        let ghost capacity = output@.len() as nat;
        let ghost start = session_start(self.crc_errors());
        let ghost mut run = start;
        proof {
            let e = self.events();
            assert(e.skip(e.len() as int) =~= Seq::<Option<u8>>::empty());
            assert(e.is_prefix_of(e));
            assert(self.waits().is_prefix_of(self.waits()));
            assert(self.waits().skip(self.waits().len() as int) =~= session_waits(
                capacity,
                start,
                Seq::<Option<u8>>::empty(),
                0,
            ));
            assert(self.received().is_prefix_of(self.received()));
            assert(output@ =~= Seq::<u8>::empty() + output@.skip(0));
        }
        let ghost first = as_sends(zrinit_text());
        let r = self.send_zrinit();
        proof {
            old(self).lemma_line_end_errors_bounded();
            let part = self.sent_since(*old(self));
            let h = old(self).history();
            let none = Seq::<Action>::empty();
            assert((h + as_sends(part)).skip(h.len() as int) =~= as_sends(part));
            assert(as_sends(part).is_prefix_of(first));
            assert(first + none =~= first);
            assert(old(self).sent().is_prefix_of(old(self).sent() + part));
        }
        match r {
            Ok(()) => {},
            Err(e) => {
                return Err(e);
            },
        }
        let mut session = Session::new();
        let mut buf = [0u8; 0x1000];
        while !session.is_finishing()
            invariant
                self.later_than(*old(self)),
                old(self).events().is_prefix_of(self.events()),
                old(self).waits().is_prefix_of(self.waits()),
                self.waits_since(*old(self)) == session_waits(
                    capacity,
                    start,
                    self.events_since(*old(self)),
                    self.events_since(*old(self)).len(),
                ),
                first == as_sends(zrinit_text()),
                self.traced(
                    *old(self),
                    first + session_trace(capacity, start, self.events_since(*old(self))),
                    Ok::<(), Error<D::Error>>(()),
                ),
                output@.len() == old(output)@.len(),
                capacity == output@.len(),
                start == session_start(old(self).crc_errors()),
                run == session_from(capacity, start, self.events_since(*old(self))),
                run.reading == fresh_reading(run.phase),
                run.phase == session.phase(),
                run.started == session.started(),
                run.data.len() == session.offset(),
                run.data.len() <= output@.len(),
                output@ == run.data + old(output)@.skip(run.data.len() as int),
                self.sent() == base + run.replies,
                base == old(self).sent(),
                self.crc_errors() == run.crc_errors,
                self.line_ends_counted(*old(self), capacity, start),
                buf@.len() == 0x1000,
            decreases self.reads_left(),
        {
            proof {
                assert((base + run.replies).skip(base.len() as int) =~= run.replies);
                assert(run.replies.is_prefix_of(run.replies));
            }
            if self.remaining_reads() == 0 {
                return Err(Error::TimedOut);
            }
            let ghost before = *self;
            let ghost out_before = output@;
            let r = self.advance(&mut session, output, &mut buf, Ghost(run), Ghost(base));
            proof {
                let since = self.events_since(before);
                let had = before.events_since(*old(self));
                lemma_skip_chain(old(self).events(), before.events(), self.events());
                lemma_skip_chain(old(self).waits(), before.waits(), self.waits());
                lemma_session_concat(capacity, start, had, since);
                lemma_session_waits_concat(capacity, start, had, since);
                lemma_session_trace_concat(capacity, start, had, since);
                lemma_line_faults_concat(capacity, start, had, since);
                let t0 = session_trace(capacity, start, had);
                let t1 = session_trace(capacity, run, since);
                self.lemma_traced_chain(before, *old(self), first + t0, t1, r);
                assert(first + t0 + t1 =~= first + (t0 + t1));
                let after = session_from(capacity, run, since);
                lemma_output_grows(old(output)@, out_before, output@, run.data, after.data);
                self.lemma_sent_within(*old(self), after.replies);
                run = after;
            }
            match r {
                Ok(()) => {},
                Err(e) => {
                    return Err(e);
                },
            }
        }
        let ghost before = *self;
        let r = self.finish(Ghost(run), Ghost(base), Ghost(capacity));
        proof {
            let since = self.events_since(before);
            let had = before.events_since(*old(self));
            lemma_skip_chain(old(self).events(), before.events(), self.events());
            lemma_skip_chain(old(self).waits(), before.waits(), self.waits());
            lemma_session_concat(capacity, start, had, since);
            lemma_session_waits_concat(capacity, start, had, since);
            lemma_session_trace_concat(capacity, start, had, since);
            lemma_line_faults_concat(capacity, start, had, since);
            let t0 = session_trace(capacity, start, had);
            let t1 = session_trace(capacity, run, since);
            self.lemma_traced_chain(before, *old(self), first + t0, t1, r);
            assert(first + t0 + t1 =~= first + (t0 + t1));
            assert((base + run.replies).skip(base.len() as int) =~= run.replies);
            assert(run.replies.is_prefix_of(run.replies));
        }
        match r {
            Ok(()) => Ok(session.bytes_taken()),
            Err(e) => Err(e),
        }
    }
}

/// A session is reproducible: two receivers with the same count of failed
/// frame checks that run a session into outputs that hold the same, and
/// make the same reads, leave the same in the output, have waited the
/// same time for each read and count the same failed frame checks,
/// whatever their lines are; they count the same faulty line-end bytes
/// if they began with the same count. If neither line fails, they have
/// sent the same bytes, in the same places between the reads, and come
/// to the same end. If a line fails, what the two have sent and what
/// went over their lines is the same as far as the shorter of the two
/// goes.
pub proof fn receive_is_deterministic<A: SerialDevice, B: SerialDevice>(
    first: Receiver<A>,
    first_before: Receiver<A>,
    first_result: Result<usize, Error<A::Error>>,
    first_written: Seq<u8>,
    second: Receiver<B>,
    second_before: Receiver<B>,
    second_result: Result<usize, Error<B::Error>>,
    second_written: Seq<u8>,
    output: Seq<u8>,
)
    requires
        first.ran_session(first_before, output, first_written, first_result),
        second.ran_session(second_before, output, second_written, second_result),
        first.events_since(first_before) == second.events_since(second_before),
        first_before.crc_errors() == second_before.crc_errors(),
    ensures
        first_written == second_written,
        first.waits_since(first_before) == second.waits_since(second_before),
        first.crc_errors() == second.crc_errors(),
        first.sent_since(first_before).len() <= second.sent_since(second_before).len()
            ==> first.sent_since(first_before).is_prefix_of(second.sent_since(second_before)),
        second.sent_since(second_before).len() <= first.sent_since(first_before).len()
            ==> second.sent_since(second_before).is_prefix_of(first.sent_since(first_before)),
        first.history_since(first_before).len() <= second.history_since(second_before).len()
            ==> first.history_since(first_before).is_prefix_of(
            second.history_since(second_before),
        ),
        second.history_since(second_before).len() <= first.history_since(first_before).len()
            ==> second.history_since(second_before).is_prefix_of(
            first.history_since(first_before),
        ),
        first_before.line_end_errors() == second_before.line_end_errors()
            ==> first.line_end_errors() == second.line_end_errors(),
        !(first_result matches Err(Error::Device(_))) && !(second_result matches Err(
            Error::Device(_),
        )) ==> {
            &&& first.sent_since(first_before) == second.sent_since(second_before)
            &&& first.history_since(first_before) == second.history_since(second_before)
            &&& first.crc_errors() == second.crc_errors()
            &&& first_result is Ok <==> second_result is Ok
            &&& first_result is Ok ==> first_result->Ok_0 == second_result->Ok_0
            &&& first_result is Err && !(first_result matches Err(Error::TimedOut)) && !(
            second_result matches Err(Error::TimedOut)) ==> failure_of(first_result->Err_0)
                == failure_of(second_result->Err_0)
        },
{
    let run = session_run(
        output.len(),
        first_before.crc_errors(),
        first.events_since(first_before),
    );
    let a = first_before.sent();
    let b = second_before.sent();
    assert((a + run.replies).skip(a.len() as int) =~= run.replies);
    assert((b + run.replies).skip(b.len() as int) =~= run.replies);
    let x = first.sent_since(first_before);
    let y = second.sent_since(second_before);
    lemma_prefixes_agree(x, y, run.replies);
    lemma_prefixes_agree(y, x, run.replies);
    let trace = as_sends(zrinit_text()) + session_trace(
        output.len(),
        session_start(first_before.crc_errors()),
        first.events_since(first_before),
    );
    let u = first.history_since(first_before);
    let v = second.history_since(second_before);
    lemma_prefixes_agree(u, v, trace);
    lemma_prefixes_agree(v, u, trace);
}

/// Whether the lines of two receivers have failed alike since
/// `first_before` and `second_before`: neither has, or both have, in a
/// call that asked the same of the line, stood at the same place behind
/// the start and behind as many bytes sent, and gave the same error.
pub open spec fn failed_alike<D: SerialDevice>(
    first: Receiver<D>,
    first_before: Receiver<D>,
    second: Receiver<D>,
    second_before: Receiver<D>,
) -> bool {
    if first.faults().len() > first_before.faults().len() {
        &&& second.faults().len() > second_before.faults().len()
        &&& first.faults().last().at - first_before.history().len() == second.faults().last().at
            - second_before.history().len()
        &&& first.faults().last().sent - first_before.sent().len() == second.faults().last().sent
            - second_before.sent().len()
        &&& first.faults().last().tried == second.faults().last().tried
        &&& first.faults().last().error == second.faults().last().error
    } else {
        second.faults().len() <= second_before.faults().len()
    }
}

/// Two errors that tell of the same failure, neither of them an error of
/// the line or a read that timed out, are the same error.
pub proof fn lemma_same_failure<E>(a: Error<E>, b: Error<E>)
    requires
        !(a matches Error::Device(_)) && !(a matches Error::TimedOut),
        !(b matches Error::Device(_)) && !(b matches Error::TimedOut),
        failure_of(a) == failure_of(b),
    ensures
        a == b,
{
    match (a, b) {
        (Error::UnexpectedFrame(g), Error::UnexpectedFrame(h)) => {
            assert(g.checked_bytes()[0] == h.checked_bytes()[0]);
            assert forall|i: int| 0 <= i < 4 implies g.data@[i] == h.data@[i] by {
                assert(g.checked_bytes()[i + 1] == h.checked_bytes()[i + 1]);
            }
            assert(g.data =~= h.data);
        },
        _ => {},
    }
}

/// A session repeats itself: two receivers on lines of one kind that
/// begin with the same counts and the same reads left, run a session
/// into outputs that hold the same, make the same reads, and whose lines
/// fail alike, come to the same result, have sent the same bytes in the
/// same places between the reads, leave the same in the output, and end
/// with the same counts and the same reads left.
pub proof fn receive_repeats<D: SerialDevice>(
    first: Receiver<D>,
    first_before: Receiver<D>,
    first_result: Result<usize, Error<D::Error>>,
    first_written: Seq<u8>,
    second: Receiver<D>,
    second_before: Receiver<D>,
    second_result: Result<usize, Error<D::Error>>,
    second_written: Seq<u8>,
    output: Seq<u8>,
)
    requires
        first.ran_session(first_before, output, first_written, first_result),
        second.ran_session(second_before, output, second_written, second_result),
        first.events_since(first_before) == second.events_since(second_before),
        first_before.crc_errors() == second_before.crc_errors(),
        first_before.line_end_errors() == second_before.line_end_errors(),
        first_before.reads_left() == second_before.reads_left(),
        failed_alike(first, first_before, second, second_before),
    ensures
        first_result == second_result,
        first_written == second_written,
        first.sent_since(first_before) == second.sent_since(second_before),
        first.history_since(first_before) == second.history_since(second_before),
        first.waits_since(first_before) == second.waits_since(second_before),
        first.crc_errors() == second.crc_errors(),
        first.line_end_errors() == second.line_end_errors(),
        first.reads_left() == second.reads_left(),
{
    receive_is_deterministic(
        first,
        first_before,
        first_result,
        first_written,
        second,
        second_before,
        second_result,
        second_written,
        output,
    );
    let events = first.events_since(first_before);
    let run = session_run(output.len(), first_before.crc_errors(), events);
    let trace = as_sends(zrinit_text()) + session_trace(
        output.len(),
        session_start(first_before.crc_errors()),
        events,
    );
    assert(first.events().len() - first_before.events().len() == events.len());
    assert(second.events().len() - second_before.events().len() == events.len());
    if first_result matches Err(Error::Device(e)) {
        lemma_prefixes_agree(
            first.sent_since(first_before),
            second.sent_since(second_before),
            run.replies,
        );
        lemma_prefixes_agree(
            first.history_since(first_before),
            second.history_since(second_before),
            trace,
        );
    } else {
        match (first_result, second_result) {
            (Err(a), Err(b)) => {
                if !(a matches Error::TimedOut) && !(b matches Error::TimedOut) {
                    lemma_same_failure(a, b);
                }
            },
            _ => {},
        }
    }
}

/// Of two starts of the same sequence the shorter is the start of the
/// longer.
pub proof fn lemma_prefixes_agree<T>(a: Seq<T>, b: Seq<T>, whole: Seq<T>)
    requires
        a.is_prefix_of(whole),
        b.is_prefix_of(whole),
    ensures
        a.len() <= b.len() ==> a.is_prefix_of(b),
        a.len() == b.len() ==> a == b,
{
    if a.len() <= b.len() {
        assert forall|i: int| 0 <= i < a.len() implies a[i] == b[i] by {
            assert(a[i] == whole.subrange(0, a.len() as int)[i]);
            assert(b[i] == whole.subrange(0, b.len() as int)[i]);
        }
        assert(a =~= b.subrange(0, a.len() as int));
        if a.len() == b.len() {
            assert(a =~= b);
        }
    }
}

/// Receives one file over `dev` into `output` and returns how many bytes
/// were written: the whole session of a receiver made by `Receiver::new`,
/// as `Receiver::receive` runs it.
pub fn receive<D: SerialDevice>(dev: D, output: &mut [u8]) -> (r: Result<usize, Error<D::Error>>)
    ensures
        final(output)@.len() == old(output)@.len(),
        exists|before: Receiver<D>, after: Receiver<D>|
            {
                &&& #[trigger] after.ran_session(before, old(output)@, final(output)@, r)
                &&& before.sent() == Seq::<u8>::empty()
                &&& before.events() == Seq::<Option<u8>>::empty()
                &&& before.crc_errors() == 0
                &&& before.reads_left() == READ_LIMIT
            },
{
    let mut receiver = Receiver::new(dev);
    let ghost before = receiver;
    let r = receiver.receive(output);
    assert(receiver.ran_session(before, old(output)@, output@, r));
    r
}

} // verus!
