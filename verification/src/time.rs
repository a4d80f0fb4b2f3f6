//! Spans of time and points on the tick counter, as plain numbers.

use vstd::prelude::*;

verus! {

pub const NANOS_PER_SEC: u32 = 1_000_000_000;

pub const NANOS_PER_MILLI: u32 = 1_000_000;

pub const MILLIS_PER_SEC: u64 = 1_000;

pub const MICROS_PER_SECOND: u64 = 1_000_000;

/// Ticks of the counter in one second.
pub const TIME_BASE_FREQUENCY: u64 = 4_000_000;

/// Ticks of the counter in one microsecond, rounded up.
pub const TICKS_PER_MICRO: u64 = (TIME_BASE_FREQUENCY + MICROS_PER_SECOND - 1) / MICROS_PER_SECOND;

/// A span of time: whole seconds and the nanoseconds beyond them.
#[derive(Clone, Copy, Debug, PartialEq, Eq, Structural)]
pub struct Duration {
    secs: u64,
    nanos: u32,
}

impl Duration {
    #[verifier::type_invariant]
    spec fn subsecond(self) -> bool {
        self.nanos < NANOS_PER_SEC
    }

    /// The whole seconds of the span.
    pub closed spec fn secs(self) -> nat {
        self.secs as nat
    }

    /// The nanoseconds beyond the whole seconds.
    pub closed spec fn subsec_nanos(self) -> nat {
        self.nanos as nat
    }

    /// The span as a pair: whole seconds, and the nanoseconds beyond
    /// them.
    pub open spec fn as_pair(self) -> (nat, nat) {
        (self.secs(), self.subsec_nanos())
    }

    /// The whole span in nanoseconds.
    pub open spec fn total_nanos(self) -> nat {
        self.secs() * 1_000_000_000 + self.subsec_nanos()
    }

    /// The span of `secs` seconds and `nanos` nanoseconds. Whole seconds
    /// among the nanoseconds are carried over to the seconds, which must
    /// have room for them.
    pub fn new(secs: u64, nanos: u32) -> (d: Duration)
        requires
            secs + nanos / NANOS_PER_SEC <= u64::MAX,
        ensures
            d.secs() == secs + nanos / NANOS_PER_SEC,
            d.subsec_nanos() == nanos % NANOS_PER_SEC,
    {
        let carry: u32 = nanos / NANOS_PER_SEC;
        Duration { secs: secs + carry as u64, nanos: nanos % NANOS_PER_SEC }
    }

    /// The empty span.
    pub fn zero() -> (d: Duration)
        ensures
            d.secs() == 0,
            d.subsec_nanos() == 0,
    {
        Duration { secs: 0, nanos: 0 }
    }

    /// The longest span there is.
    pub fn max() -> (d: Duration)
        ensures
            d.secs() == u64::MAX,
            d.subsec_nanos() == 999_999_999,
    {
        Duration { secs: u64::MAX, nanos: 999_999_999 }
    }

    pub fn from_secs(secs: u64) -> (d: Duration)
        ensures
            d.secs() == secs,
            d.subsec_nanos() == 0,
    {
        Duration { secs, nanos: 0 }
    }

    pub fn from_millis(millis: u64) -> (d: Duration)
        ensures
            d.secs() == millis / 1000,
            d.subsec_nanos() == (millis % 1000) * 1_000_000,
            d.total_nanos() == millis * 1_000_000,
    {
        let secs: u64 = millis / MILLIS_PER_SEC;
        let rest: u32 = (millis % MILLIS_PER_SEC) as u32;
        let nanos: u32 = rest * NANOS_PER_MILLI;
        assert((millis / 1000) * 1_000_000_000 + (millis % 1000) * 1_000_000 == millis
            * 1_000_000) by (nonlinear_arith);
        Duration { secs, nanos }
    }

    /// The whole seconds of the span.
    pub fn as_secs(&self) -> (s: u64)
        ensures
            s == self.secs(),
    {
        self.secs
    }

    /// The nanoseconds beyond the whole seconds, always below one second.
    pub fn subsec(&self) -> (n: u32)
        ensures
            n == self.subsec_nanos(),
            n < NANOS_PER_SEC,
    {
        proof {
            use_type_invariant(self);
        }
        self.nanos
    }

    /// Whether this span is at least as long as `other`.
    pub fn at_least(&self, other: &Duration) -> (r: bool)
        ensures
            r == (self.total_nanos() >= other.total_nanos()),
    {
        proof {
            use_type_invariant(self);
            use_type_invariant(other);
            assert(self.secs > other.secs ==> self.secs * 1_000_000_000 >= (other.secs + 1)
                * 1_000_000_000) by (nonlinear_arith);
            assert(self.secs < other.secs ==> (self.secs + 1) * 1_000_000_000 <= other.secs
                * 1_000_000_000) by (nonlinear_arith);
        }
        self.secs > other.secs || (self.secs == other.secs && self.nanos >= other.nanos)
    }
}

/// A reading of the tick counter.
#[derive(Clone, Copy, Debug, PartialEq, Eq, Structural)]
pub struct Instant(pub u64);

/// The span that `ticks` ticks of the counter last, cut to whole
/// microseconds.
pub open spec fn span_of_ticks(ticks: nat) -> (nat, nat) {
    (ticks / 4_000_000, ((ticks % 4_000_000) / 4) * 1000)
}

impl Instant {
    /// The span from `earlier` to this reading; the empty span where
    /// `earlier` is the later of the two.
    pub fn duration_since(self, earlier: Instant) -> (d: Duration)
        ensures
            self.0 >= earlier.0 ==> (d.secs(), d.subsec_nanos()) == span_of_ticks(
                (self.0 - earlier.0) as nat,
            ),
            self.0 < earlier.0 ==> d.secs() == 0 && d.subsec_nanos() == 0,
    {
        match self.checked_duration_since(earlier) {
            Some(d) => d,
            None => Duration::zero(),
        }
    }

    /// The span from `earlier` to this reading, or `None` where `earlier`
    /// is the later of the two.
    pub fn checked_duration_since(self, earlier: Instant) -> (r: Option<Duration>)
        ensures
            match r {
                Some(d) => self.0 >= earlier.0 && (d.secs(), d.subsec_nanos()) == span_of_ticks(
                    (self.0 - earlier.0) as nat,
                ),
                None => self.0 < earlier.0,
            },
    {
        if self.0 < earlier.0 {
            return None;
        }
        assert(TICKS_PER_MICRO == 4) by {
            assert((4_000_000u64 + 1_000_000 - 1) / 1_000_000 == 4);
        }
        let diff: u64 = self.0 - earlier.0;
        let secs: u64 = diff / TIME_BASE_FREQUENCY;
        let rems: u64 = diff % TIME_BASE_FREQUENCY;
        let nanos: u64 = (rems / TICKS_PER_MICRO) * 1000;
        Some(Duration::new(secs, nanos as u32))
    }
}

/// A span of time that started at a known reading of the counter.
#[derive(Clone, Copy, Debug)]
pub struct Timeout {
    start: Instant,
    duration: Duration,
}

impl Timeout {
    /// The reading at which the span started.
    pub closed spec fn started(self) -> Instant {
        self.start
    }

    /// The length of the span.
    pub closed spec fn span(self) -> Duration {
        self.duration
    }

    /// What `expired` answers at the reading `now`.
    pub open spec fn expired_at(self, now: Instant) -> bool {
        if now.0 >= self.started().0 {
            let (secs, nanos) = span_of_ticks((now.0 - self.started().0) as nat);
            secs * 1_000_000_000 + nanos >= self.span().total_nanos()
        } else {
            self.span().total_nanos() == 0
        }
    }

    /// Starts a span of `duration` at the reading `now`.
    pub fn start(duration: Duration, now: Instant) -> (t: Timeout)
        ensures
            t.started() == now,
            t.span() == duration,
    {
        Timeout { start: now, duration }
    }

    /// Whether the span is over at the reading `now`. A reading before the
    /// start counts as no time passed.
    pub fn expired(&self, now: Instant) -> (r: bool)
        ensures
            r == self.expired_at(now),
    {
        let passed = now.duration_since(self.start);
        passed.at_least(&self.duration)
    }
}

} // verus!
