//! The serial line as the receivers see it: one byte out, one byte in.

use vstd::prelude::*;
use crate::proto::{FrameEncoding, FrameHeader};
use crate::time::Duration;

verus! {

/// A serial line: one byte out, one byte in.
pub trait SerialDevice {
    type Error;

    /// Transmits one byte, waiting until the line is ready for it.
    fn send(&mut self, byte: u8) -> Result<(), Self::Error>;

    /// Receives one byte: `Some` if one arrives before `timeout` is over,
    /// `None` if none does.
    fn recv(&mut self, timeout: Duration) -> Result<Option<u8>, Self::Error>;
}

/// Why a transfer stopped.
#[derive(Debug)]
pub enum Error<E> {
    /// A frame header named an encoding that the receiver does not read.
    InvalidFrameEncoding(FrameEncoding),
    /// A frame arrived that the receiver cannot take in the state it is in.
    UnexpectedFrame(FrameHeader),
    /// A byte that is no lowercase hexadecimal digit stood where one was
    /// expected.
    InvalidHex(u8),
    /// A `ZDLE` was followed by a byte that has no meaning there, or a
    /// byte stood where only a `ZDLE` could.
    InvalidEscape(u8),
    /// A payload was longer than the buffer it was to be written to.
    Overflow,
    /// After the closing frame a byte other than `O` arrived.
    UnexpectedByte(u8),
    /// No byte arrived in time, or the receiver had used up its reads.
    TimedOut,
    /// The serial line failed.
    Device(E),
}

/// A serial line with a record of what went over it, a record of the
/// calls at which it failed, and a bound on how often it may be read:
/// every `recv` uses up one read, and with none left `recv` times out
/// without asking the line. The bound is what makes every loop that waits
/// for the line come to an end.
pub struct Device<D: SerialDevice> {
    dev: D,
    reads_left: u64,
    sent: Ghost<Seq<u8>>,
    received: Ghost<Seq<u8>>,
    events: Ghost<Seq<Option<u8>>>,
    waits: Ghost<Seq<(nat, nat)>>,
    history: Ghost<Seq<Action>>,
    faults: Ghost<Seq<Fault<D::Error>>>,
}

/// What was asked of the line in a call.
pub enum Attempt {
    /// To take this byte.
    Send(u8),
    /// To bring a byte, waiting at most so many seconds and nanoseconds.
    Read((nat, nat)),
}

/// A call at which the line failed.
pub struct Fault<E> {
    /// How many bytes had been sent and reads had been made before it:
    /// its place in the line's history.
    pub at: nat,
    /// How many bytes had been sent before it.
    pub sent: nat,
    /// What was asked of the line.
    pub tried: Attempt,
    /// The error that the line gave.
    pub error: E,
}

/// Whether `after` holds one failure more than `before`: the last one,
/// which stands at `at` in the line's history, behind `sent` bytes sent,
/// and gave `error`.
pub open spec fn one_fault_more<E>(
    before: Seq<Fault<E>>,
    after: Seq<Fault<E>>,
    at: nat,
    sent: nat,
    error: E,
) -> bool {
    &&& after.len() == before.len() + 1
    &&& after.drop_last() == before
    &&& after.last().at == at
    &&& after.last().sent == sent
    &&& after.last().error == error
}

/// How many reads are left of `left` once `used` have been asked for.
pub open spec fn reads_after(left: nat, used: int) -> nat {
    if left > used {
        (left - used) as nat
    } else {
        0
    }
}

/// One thing that went over the line.
pub enum Action {
    /// A byte that the line took.
    Sent(u8),
    /// A read: the byte that it brought, or `None` if it timed out.
    Read(Option<u8>),
}

/// The bytes of `w` as they were sent, one after the other.
pub open spec fn as_sends(w: Seq<u8>) -> Seq<Action> {
    Seq::new(w.len(), |i: int| Action::Sent(w[i]))
}

/// The reads `events` as they were made, one after the other.
pub open spec fn as_reads(events: Seq<Option<u8>>) -> Seq<Action> {
    Seq::new(events.len(), |i: int| Action::Read(events[i]))
}

/// Sending `a` and then `b` is sending `a + b`.
pub proof fn lemma_sends_concat(a: Seq<u8>, b: Seq<u8>)
    ensures
        as_sends(a + b) == as_sends(a) + as_sends(b),
{
    assert(as_sends(a + b) =~= as_sends(a) + as_sends(b));
}

/// Making the reads `a` and then `b` is making `a + b`.
pub proof fn lemma_reads_concat(a: Seq<Option<u8>>, b: Seq<Option<u8>>)
    ensures
        as_reads(a + b) == as_reads(a) + as_reads(b),
{
    assert(as_reads(a + b) =~= as_reads(a) + as_reads(b));
}

/// The bytes of `w` as the reads that brought them.
pub open spec fn as_events(w: Seq<u8>) -> Seq<Option<u8>> {
    Seq::new(w.len(), |i: int| Some(w[i]))
}

/// Reads that bring `a` and then `b` bring `a + b`.
pub proof fn lemma_events_concat(a: Seq<u8>, b: Seq<u8>)
    ensures
        as_events(a + b) == as_events(a) + as_events(b),
{
    assert(as_events(a + b) =~= as_events(a) + as_events(b));
}

impl<D: SerialDevice> Device<D> {
    /// Every byte that the line has taken from this wrapper, oldest
    /// first.
    pub closed spec fn sent(&self) -> Seq<u8> {
        self.sent@
    }

    /// Every byte that the line has handed to this wrapper, oldest first.
    pub closed spec fn received(&self) -> Seq<u8> {
        self.received@
    }

    /// What every read so far has come to, oldest first: the byte that it
    /// brought, or `None` for a read that timed out. A read at which the
    /// line failed is not among them: it is in `faults`.
    pub closed spec fn events(&self) -> Seq<Option<u8>> {
        self.events@
    }

    /// How long each of the reads in `events` was to wait at most, as
    /// seconds and nanoseconds.
    pub closed spec fn waits(&self) -> Seq<(nat, nat)> {
        self.waits@
    }

    /// Everything that went over the line, in the order in which it
    /// happened: each byte sent and each read made. `sent` holds its
    /// bytes and `events` its reads.
    pub closed spec fn history(&self) -> Seq<Action> {
        self.history@
    }

    /// Every call at which the line has failed, oldest first. A failed
    /// call leaves no other trace: it is not in `history`.
    pub closed spec fn faults(&self) -> Seq<Fault<D::Error>> {
        self.faults@
    }

    /// How many more times the line may be read.
    pub closed spec fn reads_left(&self) -> nat {
        self.reads_left as nat
    }

    /// This line is `before` at a later time: its history has only grown,
    /// and no read has come back.
    pub open spec fn later_than(&self, before: &Self) -> bool {
        &&& before.sent().is_prefix_of(self.sent())
        &&& before.received().is_prefix_of(self.received())
        &&& self.reads_left() <= before.reads_left()
    }

    /// Wraps `dev`, allowing `read_limit` reads of it.
    pub fn new(dev: D, read_limit: u64) -> (d: Self)
        ensures
            d.sent() == Seq::<u8>::empty(),
            d.received() == Seq::<u8>::empty(),
            d.events() == Seq::<Option<u8>>::empty(),
            d.waits() == Seq::<(nat, nat)>::empty(),
            d.history() == Seq::<Action>::empty(),
            d.faults() == Seq::<Fault<D::Error>>::empty(),
            d.reads_left() == read_limit,
    {
        Device {
            dev,
            reads_left: read_limit,
            sent: Ghost(Seq::empty()),
            received: Ghost(Seq::empty()),
            events: Ghost(Seq::empty()),
            waits: Ghost(Seq::empty()),
            history: Ghost(Seq::empty()),
            faults: Ghost(Seq::empty()),
        }
    }

    /// How many more times the line may be read.
    pub fn remaining_reads(&self) -> (n: u64)
        ensures
            n == self.reads_left(),
    {
        self.reads_left
    }

    /// Transmits `byte`.
    pub fn send(&mut self, byte: u8) -> (r: Result<(), Error<D::Error>>)
        ensures
            final(self).received() == old(self).received(),
            final(self).events() == old(self).events(),
            final(self).waits() == old(self).waits(),
            final(self).reads_left() == old(self).reads_left(),
            match r {
                Ok(()) => final(self).sent() == old(self).sent().push(byte) && final(self).history() == old(self).history().push(Action::Sent(byte)) && final(self).faults() == old(self).faults(),
                Err(Error::Device(e)) => final(self).sent() == old(self).sent() && final(self).history() == old(self).history() && one_fault_more(
                    old(self).faults(),
                    final(self).faults(),
                    old(self).history().len(),
                    old(self).sent().len(),
                    e,
                ) && final(self).faults().last().tried == Attempt::Send(byte),
                Err(_) => false,
            },
    {
        match self.dev.send(byte) {
            Ok(()) => {
                self.sent = Ghost(self.sent@.push(byte));
                self.history = Ghost(self.history@.push(Action::Sent(byte)));
                Ok(())
            },
            Err(error) => {
                proof {
                    assert(self.faults@.push(
                        Fault {
                            at: self.history@.len(),
                            sent: self.sent@.len(),
                            tried: Attempt::Send(byte),
                            error,
                        },
                    ).drop_last() =~= self.faults@);
                }
                self.faults = Ghost(
                    self.faults@.push(
                        Fault {
                            at: self.history@.len(),
                            sent: self.sent@.len(),
                            tried: Attempt::Send(byte),
                            error,
                        },
                    ),
                );
                Err(Error::Device(error))
            },
        }
    }

    /// Receives one byte. With no reads left this is `TimedOut` and the
    /// line is not asked; otherwise one read is used up, and a line that
    /// has no byte within `timeout` gives `TimedOut` as well.
    pub fn recv(&mut self, timeout: Duration) -> (r: Result<u8, Error<D::Error>>)
        ensures
            final(self).sent() == old(self).sent(),
            final(self).waits() == (if r matches Err(Error::Device(_)) {
                old(self).waits()
            } else {
                old(self).waits().push(timeout.as_pair())
            }),
            final(self).history() == (match r {
                Ok(byte) => old(self).history().push(Action::Read(Some(byte))),
                Err(Error::TimedOut) => old(self).history().push(Action::Read(None)),
                _ => old(self).history(),
            }),
            old(self).reads_left() == 0 ==> r is Err && final(self).reads_left() == 0,
            old(self).reads_left() > 0 ==> final(self).reads_left() == old(self).reads_left() - 1,
            match r {
                Ok(byte) => final(self).received() == old(self).received().push(byte) && final(self).events() == old(self).events().push(Some(byte)),
                Err(Error::TimedOut) => final(self).received() == old(self).received() && final(self).events() == old(self).events().push(None),
                Err(Error::Device(_)) => final(self).received() == old(self).received() && final(self).events() == old(self).events() && old(self).reads_left() > 0,
                Err(_) => false,
            },
            match r {
                Err(Error::Device(e)) => one_fault_more(
                    old(self).faults(),
                    final(self).faults(),
                    old(self).history().len(),
                    old(self).sent().len(),
                    e,
                ) && final(self).faults().last().tried == Attempt::Read(timeout.as_pair()),
                _ => final(self).faults() == old(self).faults(),
            },
    {
        if self.reads_left == 0 {
            self.events = Ghost(self.events@.push(None));
            self.waits = Ghost(self.waits@.push(timeout.as_pair()));
            self.history = Ghost(self.history@.push(Action::Read(None)));
            return Err(Error::TimedOut);
        }
        self.reads_left = self.reads_left - 1;
        match self.dev.recv(timeout) {
            Ok(Some(byte)) => {
                self.received = Ghost(self.received@.push(byte));
                self.events = Ghost(self.events@.push(Some(byte)));
                self.waits = Ghost(self.waits@.push(timeout.as_pair()));
                self.history = Ghost(self.history@.push(Action::Read(Some(byte))));
                Ok(byte)
            },
            Ok(None) => {
                self.events = Ghost(self.events@.push(None));
                self.waits = Ghost(self.waits@.push(timeout.as_pair()));
                self.history = Ghost(self.history@.push(Action::Read(None)));
                Err(Error::TimedOut)
            },
            Err(error) => {
                proof {
                    assert(self.faults@.push(
                        Fault {
                            at: self.history@.len(),
                            sent: self.sent@.len(),
                            tried: Attempt::Read(timeout.as_pair()),
                            error,
                        },
                    ).drop_last() =~= self.faults@);
                }
                self.faults = Ghost(
                    self.faults@.push(
                        Fault {
                            at: self.history@.len(),
                            sent: self.sent@.len(),
                            tried: Attempt::Read(timeout.as_pair()),
                            error,
                        },
                    ),
                );
                Err(Error::Device(error))
            },
        }
    }
}

} // verus!
