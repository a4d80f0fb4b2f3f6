//! The ZDLE escape: how a byte stream is wrapped for the line, and how the
//! receiver unwraps it and finds the end of a subpacket.

use vstd::prelude::*;
use crate::consts::{ZCRCE, ZCRCW, ZDLE, ZDLEE, ZRUB0, ZRUB1};

verus! {

/// What the byte after a `ZDLE` stands for.
#[derive(Clone, Copy, Debug, PartialEq, Eq, Structural)]
pub enum Escape {
    /// A data byte.
    Literal(u8),
    /// The end of a subpacket; the byte says of which kind.
    Marker(u8),
    /// Nothing: the byte may not follow a `ZDLE`.
    Invalid(u8),
}

/// The meaning of `b` after a `ZDLE`. The tests are made in this order: a
/// byte with bit 6 set and bit 5 clear stands for itself with bit 6
/// cleared; `ZRUB0` stands for `0x7f` and `ZRUB1` for `0xff`; `ZCRCE` to
/// `ZCRCW` end a subpacket; any other byte has no meaning.
pub open spec fn escape_meaning(b: u8) -> Escape {
    if b & 0x60 == 0x40 {
        Escape::Literal(b ^ 0x40)
    } else if b == ZRUB0 {
        Escape::Literal(0x7f)
    } else if b == ZRUB1 {
        Escape::Literal(0xff)
    } else if ZCRCE <= b <= ZCRCW {
        Escape::Marker(b)
    } else {
        Escape::Invalid(b)
    }
}

/// Tells what the byte `b`, read after a `ZDLE`, stands for.
pub fn unescape(b: u8) -> (r: Escape)
    ensures
        r == escape_meaning(b),
{
    if b & 0x60 == 0x40 {
        Escape::Literal(b ^ 0x40)
    } else if b == ZRUB0 {
        Escape::Literal(0x7f)
    } else if b == ZRUB1 {
        Escape::Literal(0xff)
    } else if ZCRCE <= b && b <= ZCRCW {
        Escape::Marker(b)
    } else {
        Escape::Invalid(b)
    }
}

/// How far the bytes read so far have carried the receiver through a
/// subpacket.
pub enum Unwrapped {
    /// Still inside the payload. `pending` says that the last byte was a
    /// `ZDLE` whose second byte has not come yet.
    Open { payload: Seq<u8>, pending: bool },
    /// The last byte was the marker that ends the subpacket.
    Closed { payload: Seq<u8>, marker: u8 },
    /// The last byte followed a `ZDLE` and has no meaning there.
    Invalid { byte: u8 },
    /// Bytes came after the subpacket had ended or failed.
    Overrun,
}

/// The state after one more byte from the line.
pub open spec fn unwrap_step(state: Unwrapped, b: u8) -> Unwrapped {
    match state {
        Unwrapped::Open { payload, pending } => if pending {
            match escape_meaning(b) {
                Escape::Literal(v) => Unwrapped::Open { payload: payload.push(v), pending: false },
                Escape::Marker(m) => Unwrapped::Closed { payload, marker: m },
                Escape::Invalid(x) => Unwrapped::Invalid { byte: x },
            }
        } else if b == ZDLE {
            Unwrapped::Open { payload, pending: true }
        } else {
            Unwrapped::Open { payload: payload.push(b), pending: false }
        },
        _ => Unwrapped::Overrun,
    }
}

/// The state after the bytes of `wire`, read in order from the start of a
/// subpacket.
pub open spec fn unwrap_run(wire: Seq<u8>) -> Unwrapped
    decreases wire.len(),
{
    if wire.len() == 0 {
        Unwrapped::Open { payload: Seq::empty(), pending: false }
    } else {
        unwrap_step(unwrap_run(wire.drop_last()), wire.last())
    }
}

/// `data` as it travels: each `ZDLE` becomes `ZDLE ZDLEE`, every other byte
/// stays as it is.
pub open spec fn escaped(data: Seq<u8>) -> Seq<u8>
    decreases data.len(),
{
    if data.len() == 0 {
        Seq::empty()
    } else if data.last() == ZDLE {
        escaped(data.drop_last()).push(ZDLE).push(ZDLEE)
    } else {
        escaped(data.drop_last()).push(data.last())
    }
}

/// The data that `wire` carries, if `wire` is a whole number of literal
/// bytes and well-formed escapes with no subpacket end among them.
pub open spec fn unescaped(wire: Seq<u8>) -> Option<Seq<u8>> {
    match unwrap_run(wire) {
        Unwrapped::Open { payload, pending } => if pending {
            None
        } else {
            Some(payload)
        },
        _ => None,
    }
}

/// Wraps `data` for the line: each `ZDLE` is sent as `ZDLE ZDLEE`.
pub fn zdle_encode(data: &[u8]) -> (wire: Vec<u8>)
    ensures
        wire@ == escaped(data@),
{
    let mut wire: Vec<u8> = Vec::new();
    let mut i: usize = 0;
    while i < data.len()
        invariant
            i <= data.len(),
            wire@ == escaped(data@.take(i as int)),
        decreases data.len() - i,
    {
        proof {
            assert(data@.take(i + 1).drop_last() =~= data@.take(i as int));
        }
        let b = data[i];
        if b == ZDLE {
            wire.push(ZDLE);
            wire.push(ZDLEE);
        } else {
            wire.push(b);
        }
        i += 1;
    }
    proof {
        assert(data@.take(i as int) =~= data@);
    }
    wire
}

/// Unwraps `wire`. `None` where `wire` ends inside an escape, holds a
/// `ZDLE` followed by a byte that is no data byte, or holds a subpacket end.
pub fn zdle_decode(wire: &[u8]) -> (data: Option<Vec<u8>>)
    ensures
        match data {
            Some(v) => unescaped(wire@) == Some(v@),
            None => unescaped(wire@) is None,
        },
{
    let mut data: Vec<u8> = Vec::new();
    let mut pending = false;
    let mut i: usize = 0;
    while i < wire.len()
        invariant
            i <= wire.len(),
            unwrap_run(wire@.take(i as int)) == (Unwrapped::Open { payload: data@, pending }),
        decreases wire.len() - i,
    {
        proof {
            assert(wire@.take(i + 1).drop_last() =~= wire@.take(i as int));
        }
        let b = wire[i];
        if pending {
            match unescape(b) {
                Escape::Literal(v) => {
                    data.push(v);
                    pending = false;
                },
                _ => {
                    proof {
                        lemma_overrun_stays(wire@, i + 1);
                    }
                    return None;
                },
            }
        } else if b == ZDLE {
            pending = true;
        } else {
            data.push(b);
        }
        i += 1;
    }
    proof {
        assert(wire@.take(i as int) =~= wire@);
    }
    if pending {
        None
    } else {
        Some(data)
    }
}

/// Once a prefix of `wire` has left the payload, no longer prefix comes
/// back into it.
proof fn lemma_overrun_stays(wire: Seq<u8>, n: int)
    requires
        0 <= n <= wire.len(),
        !(unwrap_run(wire.take(n)) is Open),
    ensures
        !(unwrap_run(wire) is Open),
    decreases wire.len() - n,
{
    if n < wire.len() {
        assert(wire.take(n + 1).drop_last() =~= wire.take(n));
        lemma_overrun_stays(wire, n + 1);
    } else {
        assert(wire.take(n) =~= wire);
    }
}

proof fn lemma_escaped_unwraps(data: Seq<u8>)
    ensures
        unwrap_run(escaped(data)) == (Unwrapped::Open { payload: data, pending: false }),
    decreases data.len(),
{
    if data.len() == 0 {
        assert(escaped(data) =~= Seq::<u8>::empty());
        assert(data =~= Seq::<u8>::empty());
    } else {
        let head = data.drop_last();
        lemma_escaped_unwraps(head);
        let before = Unwrapped::Open { payload: head, pending: false };
        if data.last() == ZDLE {
            let mid = escaped(head).push(ZDLE);
            assert(mid.drop_last() =~= escaped(head));
            assert(unwrap_run(mid) == unwrap_step(before, ZDLE));
            assert(escaped(data).drop_last() =~= mid);
            assert(unwrap_run(escaped(data)) == unwrap_step(unwrap_run(mid), ZDLEE));
            assert(0x58u8 & 0x60 == 0x40 && 0x58u8 ^ 0x40 == 0x18) by (bit_vector);
            assert(head.push(0x18u8) =~= data);
        } else {
            assert(escaped(data).drop_last() =~= escaped(head));
            assert(unwrap_run(escaped(data)) == unwrap_step(before, data.last()));
            assert(head.push(data.last()) =~= data);
        }
    }
}

/// A stream with no `ZDLE` in it travels as it is, and unwrapping what was
/// wrapped gives it back.
pub proof fn zdle_roundtrip_plain(data: Seq<u8>)
    requires
        forall|i: int| 0 <= i < data.len() ==> data[i] != ZDLE,
    ensures
        escaped(data) == data,
        unescaped(escaped(data)) == Some(data),
    decreases data.len(),
{
    lemma_escaped_unwraps(data);
    if data.len() > 0 {
        zdle_roundtrip_plain(data.drop_last());
        assert(data.drop_last().push(data.last()) =~= data);
    } else {
        assert(escaped(data) =~= data);
    }
}

/// Unwrapping what was wrapped gives the data back, whatever bytes it holds.
pub proof fn zdle_roundtrip(data: Seq<u8>)
    ensures
        unescaped(escaped(data)) == Some(data),
{
    lemma_escaped_unwraps(data);
}

/// One more byte carries a subpacket on by one step.
pub proof fn lemma_unwrap_push(wire: Seq<u8>, b: u8)
    ensures
        unwrap_run(wire + seq![b]) == unwrap_step(unwrap_run(wire), b),
{
    assert((wire + seq![b]).drop_last() =~= wire);
}

/// The payload that the bytes of `wire` have brought: what `unwrap_run`
/// holds, and behind a byte that ended the payload by a failure what it
/// held before that byte.
pub open spec fn unwrap_payload(wire: Seq<u8>) -> Seq<u8> {
    match unwrap_run(wire) {
        Unwrapped::Open { payload, .. } => payload,
        Unwrapped::Closed { payload, .. } => payload,
        _ => if wire.len() > 0 {
            match unwrap_run(wire.drop_last()) {
                Unwrapped::Open { payload, .. } => payload,
                _ => Seq::empty(),
            }
        } else {
            Seq::empty()
        },
    }
}

/// Whether a buffer that held `before` holds `after` once `payload` has
/// been written to its start: the payload, and behind it what it held.
pub open spec fn keeps(after: Seq<u8>, before: Seq<u8>, payload: Seq<u8>) -> bool {
    &&& after.len() == before.len()
    &&& payload.len() <= after.len()
    &&& after.take(payload.len() as int) == payload
    &&& after.skip(payload.len() as int) == before.skip(payload.len() as int)
}

} // verus!
