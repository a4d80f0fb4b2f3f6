//! What frames and their fields look like on the line.

use vstd::prelude::*;
use crate::consts::{CR, LF, XON, ZACK, ZBIN32, ZDLE, ZFIN, ZHEX, ZPAD};
use crate::crc::{crc16_detects_bit_flip, spec_crc16, spec_crc32};
use crate::escape::{escape_meaning, unwrap_run, unwrap_step, Escape, Unwrapped};
use crate::hex::{hex_decode, hex_encode, is_hex_digit};
use crate::proto::{be_bytes, be_bytes16, be_value, be_value16, FrameEncoding, FrameHeader};

verus! {

/// How the bytes of a field are read from the line.
#[derive(Clone, Copy, Debug, PartialEq, Eq, Structural)]
pub enum RecvEnc {
    /// Two hexadecimal digits for each byte; the top bit of each digit is
    /// parity and is ignored.
    Hex,
    /// Each byte as it is, but for `ZDLE`, which escapes the byte after it.
    Esc,
    /// Each byte as it is.
    Raw,
}

/// What the bytes read for one field byte amount to.
pub enum Unit {
    /// Not yet a whole byte.
    Partial,
    /// Exactly one byte, with this value.
    Value(u8),
    /// Two bytes of which this one is no hexadecimal digit.
    BadHex(u8),
    /// A `ZDLE` and this byte, which stands for no data byte.
    BadEscape(u8),
    /// More than one byte's worth.
    Overrun,
}

/// What `w`, read under `enc`, amounts to.
pub open spec fn unit_decode(enc: RecvEnc, w: Seq<u8>) -> Unit {
    match enc {
        RecvEnc::Raw => if w.len() == 0 {
            Unit::Partial
        } else if w.len() == 1 {
            Unit::Value(w[0])
        } else {
            Unit::Overrun
        },
        RecvEnc::Hex => if w.len() < 2 {
            Unit::Partial
        } else if w.len() == 2 {
            match hex_decode(w[0] & 0x7f, w[1] & 0x7f) {
                Ok(v) => Unit::Value(v),
                Err(e) => Unit::BadHex(e.0),
            }
        } else {
            Unit::Overrun
        },
        RecvEnc::Esc => if w.len() == 0 {
            Unit::Partial
        } else if w[0] != ZDLE {
            if w.len() == 1 {
                Unit::Value(w[0])
            } else {
                Unit::Overrun
            }
        } else if w.len() == 1 {
            Unit::Partial
        } else if w.len() == 2 {
            match escape_meaning(w[1]) {
                Escape::Literal(v) => Unit::Value(v),
                Escape::Marker(x) => Unit::BadEscape(x),
                Escape::Invalid(x) => Unit::BadEscape(x),
            }
        } else {
            Unit::Overrun
        },
    }
}

/// The bytes of `s`, each spelled as two hexadecimal digits.
pub open spec fn hex_text(s: Seq<u8>) -> Seq<u8>
    decreases s.len(),
{
    if s.len() == 0 {
        Seq::empty()
    } else {
        hex_text(s.drop_last()) + hex_encode(s.last())
    }
}

/// The bytes of `s` as a frame carries them: in hexadecimal digits or as
/// they are.
pub open spec fn field_text(hex: bool, s: Seq<u8>) -> Seq<u8> {
    if hex {
        hex_text(s)
    } else {
        s
    }
}

/// The frame in `encoding` that carries `body`, the type and data of a
/// header: two `ZPAD`, `ZDLE`, the encoding byte, then `body` and its
/// CRC-16 (most significant byte first), in hexadecimal digits where the
/// encoding is `ZHEX`, then carriage return, line feed with the top bit
/// set, and `XON`.
pub open spec fn frame_text(encoding: u8, body: Seq<u8>) -> Seq<u8> {
    let hex = encoding == ZHEX;
    seq![ZPAD, ZPAD, ZDLE, encoding] + field_text(hex, body) + field_text(
        hex,
        be_bytes16(spec_crc16(body)),
    ) + seq![CR, 0x8au8, XON]
}

/// The frame that carries `h`.
pub open spec fn frame_wire(h: FrameHeader) -> Seq<u8> {
    frame_text(h.encoding.0, h.checked_bytes())
}

/// How far the bytes read so far have carried the receiver through a run
/// of field bytes.
pub enum Fields {
    /// `values` are the field bytes read in full; `partial` holds what has
    /// come of the next one.
    Reading { values: Seq<u8>, partial: Seq<u8> },
    /// The last byte completed a pair of which `byte` is no hexadecimal
    /// digit.
    BadHex { byte: u8 },
    /// The last byte followed a `ZDLE` and stands for no data byte.
    BadEscape { byte: u8 },
    /// Bytes came after the last field byte, or after a failure.
    Overrun,
}

/// The state after one more byte from the line, where `count` field bytes
/// are to be read under `enc`.
pub open spec fn fields_step(enc: RecvEnc, count: nat, state: Fields, b: u8) -> Fields {
    match state {
        Fields::Reading { values, partial } => if values.len() >= count {
            Fields::Overrun
        } else {
            match unit_decode(enc, partial.push(b)) {
                Unit::Partial => Fields::Reading { values, partial: partial.push(b) },
                Unit::Value(v) => Fields::Reading { values: values.push(v), partial: Seq::empty() },
                Unit::BadHex(x) => Fields::BadHex { byte: x },
                Unit::BadEscape(x) => Fields::BadEscape { byte: x },
                Unit::Overrun => Fields::Overrun,
            }
        },
        _ => Fields::Overrun,
    }
}

/// The state after the bytes of `wire`, where `count` field bytes are to
/// be read under `enc`.
pub open spec fn fields_run(enc: RecvEnc, count: nat, wire: Seq<u8>) -> Fields
    decreases wire.len(),
{
    if wire.len() == 0 {
        Fields::Reading { values: Seq::empty(), partial: Seq::empty() }
    } else {
        fields_step(enc, count, fields_run(enc, count, wire.drop_last()), wire.last())
    }
}

/// Reading one more field byte: where `head` left `values` read in full
/// and room for more, the bytes `unit` of the next field byte carry the
/// run on as `unit_decode` says.
pub proof fn lemma_fields_unit(enc: RecvEnc, count: nat, head: Seq<u8>, unit: Seq<u8>)
    requires
        fields_run(enc, count, head) matches Fields::Reading { values, partial }
            && partial.len() == 0 && values.len() < count,
        !(unit_decode(enc, unit) is Overrun),
    ensures
        fields_run(enc, count, head + unit) == match unit_decode(enc, unit) {
            Unit::Partial => Fields::Reading {
                values: fields_run(enc, count, head)->values,
                partial: unit,
            },
            Unit::Value(v) => Fields::Reading {
                values: fields_run(enc, count, head)->values.push(v),
                partial: Seq::empty(),
            },
            Unit::BadHex(x) => Fields::BadHex { byte: x },
            Unit::BadEscape(x) => Fields::BadEscape { byte: x },
            Unit::Overrun => Fields::Overrun,
        },
{
    let values = fields_run(enc, count, head)->values;
    let start = Fields::Reading { values, partial: Seq::empty() };
    assert(fields_run(enc, count, head) == start) by {
        assert(fields_run(enc, count, head)->partial =~= Seq::<u8>::empty());
    }
    if unit.len() == 0 {
        assert(head + unit =~= head);
        assert(unit =~= Seq::<u8>::empty());
    } else if unit.len() == 1 {
        assert((head + unit).drop_last() =~= head);
        assert(Seq::<u8>::empty().push(unit[0]) =~= unit);
    } else {
        let first = seq![unit[0]];
        assert((head + unit).drop_last() =~= head + first);
        assert((head + first).drop_last() =~= head);
        assert(Seq::<u8>::empty().push(unit[0]) =~= first);
        assert(first.push(unit[1]) =~= unit);
        assert(unit_decode(enc, first) is Partial);
        assert(fields_run(enc, count, head + first) == Fields::Reading { values, partial: first });
    }
}

/// Most bytes that one data subpacket may carry.
pub const SUBPACKET_LIMIT: usize = 1024;

/// Most bytes of payload that a receiver takes into a buffer of `room`
/// bytes: what the buffer holds, and never more than `SUBPACKET_LIMIT`.
pub open spec fn packet_limit(room: nat) -> nat {
    if room < SUBPACKET_LIMIT {
        room
    } else {
        SUBPACKET_LIMIT as nat
    }
}

/// How far the bytes read so far have carried the receiver through a data
/// subpacket and the frame check behind it.
pub enum PacketScan {
    /// Inside the payload. `pending` says that the last byte was a `ZDLE`
    /// whose second byte has not come yet.
    Body { payload: Seq<u8>, pending: bool },
    /// Behind the marker: `crc` are the bytes of the frame check read in
    /// full, `partial` holds what has come of the next one.
    Check { payload: Seq<u8>, marker: u8, crc: Seq<u8>, partial: Seq<u8> },
    /// The last byte followed a `ZDLE` and has no meaning there.
    BadEscape { byte: u8 },
    /// The last byte made the payload longer than the receiver takes.
    TooLong,
    /// Bytes came after the frame check was complete, or after a failure.
    Overrun,
}

/// The state after one more byte from the line, for a payload of at most
/// `limit` bytes and a frame check of `crc_len` bytes.
pub open spec fn packet_step(limit: nat, crc_len: nat, state: PacketScan, b: u8) -> PacketScan {
    match state {
        PacketScan::Body { payload, pending } => match unwrap_step(
            Unwrapped::Open { payload, pending },
            b,
        ) {
            Unwrapped::Open { payload: p, pending: q } => if p.len() > limit {
                PacketScan::TooLong
            } else {
                PacketScan::Body { payload: p, pending: q }
            },
            Unwrapped::Closed { payload: p, marker } => PacketScan::Check {
                payload: p,
                marker,
                crc: Seq::empty(),
                partial: Seq::empty(),
            },
            Unwrapped::Invalid { byte } => PacketScan::BadEscape { byte },
            Unwrapped::Overrun => PacketScan::Overrun,
        },
        PacketScan::Check { payload, marker, crc, partial } => match fields_step(
            RecvEnc::Esc,
            crc_len,
            Fields::Reading { values: crc, partial },
            b,
        ) {
            Fields::Reading { values, partial: p } => PacketScan::Check {
                payload,
                marker,
                crc: values,
                partial: p,
            },
            Fields::BadEscape { byte } => PacketScan::BadEscape { byte },
            _ => PacketScan::Overrun,
        },
        _ => PacketScan::Overrun,
    }
}

/// The state after the bytes of `wire`, read in order from the start of a
/// subpacket, for a frame check of `crc_len` bytes.
pub open spec fn packet_run(limit: nat, crc_len: nat, wire: Seq<u8>) -> PacketScan
    decreases wire.len(),
{
    if wire.len() == 0 {
        PacketScan::Body { payload: Seq::empty(), pending: false }
    } else {
        packet_step(limit, crc_len, packet_run(limit, crc_len, wire.drop_last()), wire.last())
    }
}

/// Whether `crc`, read behind a subpacket of a frame in `encoding`, is the
/// frame check of `payload` and `marker`: the 32-bit CRC for `ZBIN32`, the
/// CRC-16 otherwise, over the payload and then the marker, most significant
/// byte first.
pub open spec fn packet_check_ok(
    encoding: FrameEncoding,
    payload: Seq<u8>,
    marker: u8,
    crc: Seq<u8>,
) -> bool {
    if encoding.0 == ZBIN32 {
        crc.len() == 4 && be_value(crc) == spec_crc32(payload.push(marker))
    } else {
        crc.len() == 2 && be_value16(crc) == spec_crc16(payload.push(marker))
    }
}

/// The frame check that a sender puts behind a subpacket.
pub open spec fn packet_crc(encoding: FrameEncoding, payload: Seq<u8>, marker: u8) -> Seq<u8> {
    if encoding.0 == ZBIN32 {
        be_bytes(spec_crc32(payload.push(marker)))
    } else {
        be_bytes16(spec_crc16(payload.push(marker)))
    }
}

/// The payload that the bytes of `wire` have brought into the receiver's
/// buffer: what the scan holds, and behind a byte that ended the
/// subpacket by a failure what it held before that byte.
pub open spec fn packet_payload(limit: nat, crc_len: nat, wire: Seq<u8>) -> Seq<u8> {
    match packet_run(limit, crc_len, wire) {
        PacketScan::Body { payload, .. } => payload,
        PacketScan::Check { payload, .. } => payload,
        _ => if wire.len() > 0 {
            match packet_run(limit, crc_len, wire.drop_last()) {
                PacketScan::Body { payload, .. } => payload,
                PacketScan::Check { payload, .. } => payload,
                _ => Seq::empty(),
            }
        } else {
            Seq::empty()
        },
    }
}

/// What the payload part of a subpacket amounts to for the receiver: as
/// `state` says, but a payload longer than `limit` is too long.
pub open spec fn bounded(limit: nat, state: Unwrapped) -> PacketScan {
    match state {
        Unwrapped::Open { payload, pending } => if payload.len() > limit {
            PacketScan::TooLong
        } else {
            PacketScan::Body { payload, pending }
        },
        Unwrapped::Closed { payload, marker } => PacketScan::Check {
            payload,
            marker,
            crc: Seq::empty(),
            partial: Seq::empty(),
        },
        Unwrapped::Invalid { byte } => PacketScan::BadEscape { byte },
        Unwrapped::Overrun => PacketScan::Overrun,
    }
}

/// Up to the end of the payload a subpacket is read as `unwrap_run` says,
/// as long as the payload is no longer than `limit`.
pub proof fn lemma_packet_body(limit: nat, crc_len: nat, wire: Seq<u8>)
    ensures
        match unwrap_run(wire) {
            Unwrapped::Open { payload, .. } => payload.len() <= limit ==> packet_run(
                limit, crc_len,
                wire,
            ) == bounded(limit, unwrap_run(wire)),
            Unwrapped::Closed { payload, .. } => payload.len() <= limit ==> packet_run(
                limit, crc_len,
                wire,
            ) == bounded(limit, unwrap_run(wire)),
            _ => true,
        },
    decreases wire.len(),
{
    if wire.len() > 0 {
        lemma_packet_body(limit, crc_len, wire.drop_last());
    }
}

/// One more byte behind a payload of no more than `limit` bytes
/// carries the subpacket where `unwrap_run` says.
pub proof fn lemma_packet_push(limit: nat, crc_len: nat, front: Seq<u8>, b: u8)
    requires
        unwrap_run(front) matches Unwrapped::Open { payload, .. } && payload.len()
            <= limit,
    ensures
        packet_run(limit, crc_len, front + seq![b]) == bounded(limit, unwrap_run(front + seq![b])),
{
    lemma_packet_body(limit, crc_len, front);
    assert((front + seq![b]).drop_last() =~= front);
}

/// Behind the marker the frame check is read as `fields_run` says.
pub proof fn lemma_packet_check(limit: nat, crc_len: nat, head: Seq<u8>, tail: Seq<u8>)
    requires
        packet_run(limit, crc_len, head) matches PacketScan::Check { crc, partial, .. } && crc.len() == 0
            && partial.len() == 0,
    ensures
        match fields_run(RecvEnc::Esc, crc_len, tail) {
            Fields::Reading { values, partial } => packet_run(limit, crc_len, head + tail)
                == (PacketScan::Check {
                payload: packet_run(limit, crc_len, head)->Check_payload,
                marker: packet_run(limit, crc_len, head)->Check_marker,
                crc: values,
                partial,
            }),
            Fields::BadEscape { byte } => packet_run(limit, crc_len, head + tail)
                == (PacketScan::BadEscape { byte }),
            _ => true,
        },
    decreases tail.len(),
{
    if tail.len() == 0 {
        assert(head + tail =~= head);
        assert(packet_run(limit, crc_len, head)->Check_crc =~= Seq::<u8>::empty());
        assert(packet_run(limit, crc_len, head)->Check_partial =~= Seq::<u8>::empty());
    } else {
        assert((head + tail).drop_last() =~= head + tail.drop_last());
        lemma_packet_check(limit, crc_len, head, tail.drop_last());
    }
}

/// Behind the marker the payload stays what it was, whatever comes of the
/// frame check.
pub proof fn lemma_packet_tail(limit: nat, crc_len: nat, head: Seq<u8>, tail: Seq<u8>)
    requires
        packet_run(limit, crc_len, head) matches PacketScan::Check { crc, partial, .. }
            && crc.len() == 0 && partial.len() == 0,
    ensures
        match fields_run(RecvEnc::Esc, crc_len, tail) {
            Fields::Reading { values, partial } => {
                &&& packet_run(limit, crc_len, head + tail) == (PacketScan::Check {
                    payload: packet_run(limit, crc_len, head)->Check_payload,
                    marker: packet_run(limit, crc_len, head)->Check_marker,
                    crc: values,
                    partial,
                })
                &&& packet_payload(limit, crc_len, head + tail) == packet_run(
                    limit,
                    crc_len,
                    head,
                )->Check_payload
            },
            Fields::BadEscape { byte } => {
                &&& packet_run(limit, crc_len, head + tail) == (PacketScan::BadEscape { byte })
                &&& packet_payload(limit, crc_len, head + tail) == packet_run(
                    limit,
                    crc_len,
                    head,
                )->Check_payload
            },
            _ => true,
        },
{
    lemma_packet_check(limit, crc_len, head, tail);
    if tail.len() > 0 {
        lemma_packet_check(limit, crc_len, head, tail.drop_last());
        assert((head + tail).drop_last() =~= head + tail.drop_last());
    }
}

/// How far the bytes read so far have carried the receiver through a
/// frame header.
pub enum HeaderScan {
    /// Looking for a `ZDLE` right behind a `ZPAD`. `after_pad` says that
    /// the last byte was a `ZPAD`.
    Hunting { after_pad: bool },
    /// The next byte names the encoding.
    Encoding,
    /// Reading type, data and frame check: `values` are the bytes read in
    /// full, `partial` holds what has come of the next one.
    Fields { encoding: u8, values: Seq<u8>, partial: Seq<u8> },
    /// Reading the line end behind a hexadecimal header, of which `seen`
    /// bytes have come.
    Trailer { encoding: u8, values: Seq<u8>, seen: nat },
    /// The last byte completed the header: `values` are type, data and
    /// frame check.
    Done { encoding: u8, values: Seq<u8> },
    /// The last byte stood for the encoding and names none that is read.
    BadEncoding { byte: u8 },
    /// The last byte completed a pair of which `byte` is no hexadecimal
    /// digit.
    BadHex { byte: u8 },
    /// The last byte followed a `ZDLE` and stands for no data byte.
    BadEscape { byte: u8 },
    /// Bytes came after the header was complete, or after a failure.
    Overrun,
}

/// How the fields of a header in `encoding` are read.
pub open spec fn field_encoding(encoding: u8) -> RecvEnc {
    if encoding == ZHEX {
        RecvEnc::Hex
    } else {
        RecvEnc::Esc
    }
}

/// How many field bytes a header in `encoding` has: type, four of data,
/// and the frame check.
pub open spec fn header_fields(encoding: u8) -> nat {
    5 + FrameEncoding(encoding).crc_len()
}

/// How many bytes of line end follow a header: none behind a binary
/// header; behind a hexadecimal one carriage return and line feed, and
/// `XON` unless the frame is `ZACK` or `ZFIN`.
pub open spec fn trailer_len(encoding: u8, frame_type: u8) -> nat {
    if encoding != ZHEX {
        0
    } else if frame_type == ZACK || frame_type == ZFIN {
        2
    } else {
        3
    }
}

/// The state once the last field byte has been read.
pub open spec fn after_fields(encoding: u8, values: Seq<u8>) -> HeaderScan {
    if trailer_len(encoding, values[0]) == 0 {
        HeaderScan::Done { encoding, values }
    } else {
        HeaderScan::Trailer { encoding, values, seen: 0 }
    }
}

/// The state after one more byte from the line.
pub open spec fn header_step(state: HeaderScan, b: u8) -> HeaderScan {
    match state {
        HeaderScan::Hunting { after_pad } => if after_pad && b == ZDLE {
            HeaderScan::Encoding
        } else {
            HeaderScan::Hunting { after_pad: b == ZPAD }
        },
        HeaderScan::Encoding => if FrameEncoding(b).receivable() {
            HeaderScan::Fields { encoding: b, values: Seq::empty(), partial: Seq::empty() }
        } else {
            HeaderScan::BadEncoding { byte: b }
        },
        HeaderScan::Fields { encoding, values, partial } => match fields_step(
            field_encoding(encoding),
            header_fields(encoding),
            Fields::Reading { values, partial },
            b,
        ) {
            Fields::Reading { values: v, partial: p } => if v.len() == header_fields(encoding) {
                after_fields(encoding, v)
            } else {
                HeaderScan::Fields { encoding, values: v, partial: p }
            },
            Fields::BadHex { byte } => HeaderScan::BadHex { byte },
            Fields::BadEscape { byte } => HeaderScan::BadEscape { byte },
            Fields::Overrun => HeaderScan::Overrun,
        },
        HeaderScan::Trailer { encoding, values, seen } => if seen + 1 >= trailer_len(
            encoding,
            values[0],
        ) {
            HeaderScan::Done { encoding, values }
        } else {
            HeaderScan::Trailer { encoding, values, seen: seen + 1 }
        },
        _ => HeaderScan::Overrun,
    }
}

/// The state after the bytes of `wire`, read in order starting in `state`.
pub open spec fn header_from(state: HeaderScan, wire: Seq<u8>) -> HeaderScan
    decreases wire.len(),
{
    if wire.len() == 0 {
        state
    } else {
        header_step(header_from(state, wire.drop_last()), wire.last())
    }
}

/// The state after the bytes of `wire`, read in order by a receiver that
/// starts to look for a header.
pub open spec fn header_run(wire: Seq<u8>) -> HeaderScan {
    header_from(HeaderScan::Hunting { after_pad: false }, wire)
}

/// Whether the frame check among `values`, the field bytes of a header in
/// `encoding`, is that of type and data: the 32-bit CRC for `ZBIN32`, the
/// CRC-16 otherwise, most significant byte first.
pub open spec fn header_check_ok(encoding: u8, values: Seq<u8>) -> bool {
    if encoding == ZBIN32 {
        be_value(values.subrange(5, 9)) == spec_crc32(values.take(5))
    } else {
        be_value16(values.subrange(5, 7)) == spec_crc16(values.take(5))
    }
}

/// Reading on from the state that `head` led to is reading `head` and
/// then `tail`.
pub proof fn lemma_header_concat(state: HeaderScan, head: Seq<u8>, tail: Seq<u8>)
    ensures
        header_from(state, head + tail) == header_from(header_from(state, head), tail),
    decreases tail.len(),
{
    if tail.len() == 0 {
        assert(head + tail =~= head);
    } else {
        assert((head + tail).drop_last() =~= head + tail.drop_last());
        lemma_header_concat(state, head, tail.drop_last());
    }
}

/// One byte carries a header on by one step.
pub proof fn lemma_header_one(state: HeaderScan, b: u8)
    ensures
        header_from(state, seq![b]) == header_step(state, b),
{
    assert(seq![b].drop_last() =~= Seq::<u8>::empty());
    assert(header_from(state, seq![b].drop_last()) == state);
}

/// The fields of a header are read as `fields_run` says: with `values`
/// read in full and `count` more to read, none of them beyond the last.
pub proof fn lemma_header_fields(encoding: u8, values: Seq<u8>, count: nat, tail: Seq<u8>)
    requires
        values.len() + count <= header_fields(encoding),
    ensures
        ({
            let start = HeaderScan::Fields { encoding, values, partial: Seq::empty() };
            match fields_run(field_encoding(encoding), count, tail) {
                Fields::Reading { values: more, partial } => header_from(start, tail) == (if tail.len()
                    == 0 {
                    start
                } else if values.len() + more.len() == header_fields(encoding) {
                    after_fields(encoding, values + more)
                } else {
                    HeaderScan::Fields { encoding, values: values + more, partial }
                }),
                Fields::BadHex { byte } => header_from(start, tail) == (HeaderScan::BadHex { byte }),
                Fields::BadEscape { byte } => header_from(start, tail) == (HeaderScan::BadEscape {
                    byte,
                }),
                Fields::Overrun => true,
            }
        }),
    decreases tail.len(),
{
    let enc = field_encoding(encoding);
    let start = HeaderScan::Fields { encoding, values, partial: Seq::empty() };
    if tail.len() > 0 {
        let front = tail.drop_last();
        lemma_header_fields(encoding, values, count, front);
        match fields_run(enc, count, front) {
            Fields::Reading { values: more, partial } => {
                if more.len() < count {
                    if front.len() == 0 {
                        assert(more =~= Seq::<u8>::empty());
                        assert(partial =~= Seq::<u8>::empty());
                        assert(values + more =~= values);
                    }
                    assert(header_from(start, front) == (HeaderScan::Fields {
                        encoding,
                        values: values + more,
                        partial,
                    }));
                    match unit_decode(enc, partial.push(tail.last())) {
                        Unit::Value(v) => {
                            assert((values + more).push(v) =~= values + more.push(v));
                        },
                        _ => {},
                    }
                }
            },
            _ => {},
        }
    }
}

/// The field bytes that a header scan holds.
pub open spec fn scan_values(state: HeaderScan) -> Seq<u8> {
    match state {
        HeaderScan::Fields { values, .. } => values,
        HeaderScan::Trailer { values, .. } => values,
        HeaderScan::Done { values, .. } => values,
        _ => Seq::empty(),
    }
}

/// Whatever the bytes of the line end are, the scan is done when as many
/// have come as the line end has.
pub proof fn lemma_header_trailer(encoding: u8, values: Seq<u8>, tail: Seq<u8>)
    requires
        tail.len() <= trailer_len(encoding, values[0]),
    ensures
        header_from(HeaderScan::Trailer { encoding, values, seen: 0 }, tail) == (if tail.len() > 0
            && tail.len() == trailer_len(encoding, values[0]) {
            HeaderScan::Done { encoding, values }
        } else {
            HeaderScan::Trailer { encoding, values, seen: tail.len() }
        }),
    decreases tail.len(),
{
    if tail.len() > 0 {
        lemma_header_trailer(encoding, values, tail.drop_last());
    }
}

/// Spelling two runs of bytes in hexadecimal digits and joining them is
/// spelling the joined run.
pub proof fn lemma_hex_text_concat(a: Seq<u8>, b: Seq<u8>)
    ensures
        hex_text(a + b) == hex_text(a) + hex_text(b),
    decreases b.len(),
{
    if b.len() == 0 {
        assert(a + b =~= a);
        assert(hex_text(a) + hex_text(b) =~= hex_text(a));
    } else {
        assert((a + b).drop_last() =~= a + b.drop_last());
        lemma_hex_text_concat(a, b.drop_last());
        assert(hex_text(a) + hex_text(b.drop_last()) + hex_encode(b.last()) =~= hex_text(a) + (
        hex_text(b.drop_last()) + hex_encode(b.last())));
    }
}

/// Bytes spelled in hexadecimal digits are read back as they were.
pub proof fn lemma_hex_text_reads_back(count: nat, values: Seq<u8>)
    requires
        values.len() <= count,
    ensures
        fields_run(RecvEnc::Hex, count, hex_text(values)) == (Fields::Reading {
            values,
            partial: Seq::empty(),
        }),
        hex_text(values).len() == 2 * values.len(),
    decreases values.len(),
{
    if values.len() == 0 {
        assert(values =~= Seq::<u8>::empty());
    } else {
        let front = values.drop_last();
        let b = values.last();
        lemma_hex_text_reads_back(count, front);
        let unit = hex_encode(b);
        let hi = unit[0];
        let lo = unit[1];
        assert(is_hex_digit(hi) && is_hex_digit(lo));
        assert(hi & 0x7f == hi) by (bit_vector)
            requires
                hi <= 0x66,
        ;
        assert(lo & 0x7f == lo) by (bit_vector)
            requires
                lo <= 0x66,
        ;
        assert(hex_decode(hi, lo) == Ok::<u8, crate::hex::FromHexError>(b));
        lemma_fields_unit(RecvEnc::Hex, count, hex_text(front), unit);
        assert(front.push(b) =~= values);
    }
}

/// A hexadecimal frame, as this receiver sends it, is read by a receiver
/// as the header it carries: the scan finds the start behind the second
/// `ZPAD`, reads type and data back as they were sent, finds the frame
/// check to be theirs, and is done with the last byte of the line end
/// (the `XON` is not read behind `ZACK` and `ZFIN`).
#[verifier::rlimit(30)]
pub proof fn hex_frame_reads_back(body: Seq<u8>)
    requires
        body.len() == 5,
    ensures
        ({
            let sent = frame_text(ZHEX, body);
            let values = body + be_bytes16(spec_crc16(body));
            &&& sent.len() == 21
            &&& header_run(sent.take(18 + trailer_len(ZHEX, body[0]) as int)) == (HeaderScan::Done {
                encoding: ZHEX,
                values,
            })
            &&& header_check_ok(ZHEX, values)
        }),
{
    let crc = be_bytes16(spec_crc16(body));
    let values = body + crc;
    let digits = hex_text(values);
    let sync = seq![ZPAD, ZPAD, ZDLE];
    let sent = frame_text(ZHEX, body);
    let n = trailer_len(ZHEX, body[0]);
    let end = seq![CR, 0x8au8, XON];
    lemma_hex_text_concat(body, crc);
    lemma_hex_text_reads_back(7, values);
    lemma_hex_text_reads_back(7, body);
    lemma_hex_text_reads_back(7, crc);
    assert(sent =~= sync + seq![ZHEX] + digits + end);
    let origin = HeaderScan::Hunting { after_pad: false };
    // The hunt.
    assert(header_run(sync) == HeaderScan::Encoding) by {
        let one = seq![ZPAD];
        let two = seq![ZPAD, ZPAD];
        assert(one.drop_last() =~= Seq::<u8>::empty());
        assert(two.drop_last() =~= one);
        assert(sync.drop_last() =~= two);
        assert(header_from(origin, Seq::<u8>::empty()) == origin);
        assert(header_from(origin, one) == header_step(origin, ZPAD));
        assert(header_from(origin, two) == header_step(header_from(origin, one), ZPAD));
        assert(header_from(origin, sync) == header_step(header_from(origin, two), ZDLE));
    }
    // The encoding.
    let fields = HeaderScan::Fields { encoding: ZHEX, values: Seq::empty(), partial: Seq::empty() };
    lemma_header_concat(origin, sync, seq![ZHEX]);
    lemma_header_one(HeaderScan::Encoding, ZHEX);
    assert(header_run(sync + seq![ZHEX]) == fields);
    // Type, data and frame check.
    lemma_header_fields(ZHEX, Seq::empty(), 7, digits);
    assert(Seq::<u8>::empty() + values =~= values);
    lemma_header_concat(origin, sync + seq![ZHEX], digits);
    assert(values[0] == body[0]);
    let trailer = HeaderScan::Trailer { encoding: ZHEX, values, seen: 0 };
    assert(header_run(sync + seq![ZHEX] + digits) == trailer);
    // The line end.
    let tail = end.take(n as int);
    lemma_header_trailer(ZHEX, values, tail);
    lemma_header_concat(origin, sync + seq![ZHEX] + digits, tail);
    assert(sent.take(18 + n as int) =~= sync + seq![ZHEX] + digits + tail);
    // The frame check.
    assert(values.take(5) =~= body);
    assert(values.subrange(5, 7) =~= crc);
    let c = spec_crc16(body);
    assert(be_value16(be_bytes16(c)) == c);
}

/// The frame check that a sender puts behind a subpacket is the one that
/// the receiver accepts.
pub proof fn packet_crc_is_accepted(encoding: FrameEncoding, payload: Seq<u8>, marker: u8)
    ensures
        packet_check_ok(encoding, payload, marker, packet_crc(encoding, payload, marker)),
{
    let c16 = spec_crc16(payload.push(marker));
    let c32 = spec_crc32(payload.push(marker));
    assert(be_value16(be_bytes16(c16)) == c16);
    assert(be_value(be_bytes(c32)) == c32);
}

/// A subpacket with a CRC-16 in which one bit of the payload or of the
/// marker was inverted on the way is not accepted with the frame check
/// that was sent.
pub proof fn packet_crc16_rejects_bit_flip(
    encoding: FrameEncoding,
    payload: Seq<u8>,
    marker: u8,
    i: int,
    bit: u8,
)
    requires
        encoding.0 != ZBIN32,
        0 <= i <= payload.len(),
        bit < 8,
    ensures
        ({
            let sent = payload.push(marker);
            let arrived = sent.update(i, sent[i] ^ (1u8 << bit));
            !packet_check_ok(
                encoding,
                arrived.drop_last(),
                arrived.last(),
                packet_crc(encoding, payload, marker),
            )
        }),
{
    let sent = payload.push(marker);
    let arrived = sent.update(i, sent[i] ^ (1u8 << bit));
    crc16_detects_bit_flip(sent, i, bit);
    assert(arrived.drop_last().push(arrived.last()) =~= arrived);
    let c16 = spec_crc16(sent);
    assert(be_value16(be_bytes16(c16)) == c16);
}

/// A subpacket with a CRC-16 in which one bit of the frame check was
/// inverted on the way is not accepted.
pub proof fn packet_crc16_rejects_flipped_check(
    encoding: FrameEncoding,
    payload: Seq<u8>,
    marker: u8,
    i: int,
    bit: u8,
)
    requires
        encoding.0 != ZBIN32,
        0 <= i < 2,
        bit < 8,
    ensures
        ({
            let sent = packet_crc(encoding, payload, marker);
            !packet_check_ok(encoding, payload, marker, sent.update(i, sent[i] ^ (1u8 << bit)))
        }),
{
    let sent = packet_crc(encoding, payload, marker);
    let c16 = spec_crc16(payload.push(marker));
    assert(be_value16(be_bytes16(c16)) == c16);
    let b = sent[i];
    assert(bit < 8 ==> b ^ (1u8 << bit) != b) by (bit_vector);
}

/// A scan that is hunting, or has just found the start of a header, was
/// hunting at every read before.
pub proof fn lemma_hunting_before(w: Seq<u8>, i: int)
    requires
        header_run(w) is Hunting || header_run(w) is Encoding,
        0 <= i < w.len(),
    ensures
        header_run(w.take(i)) is Hunting,
    decreases w.len(),
{
    let front = w.drop_last();
    assert(front =~= w.take(w.len() - 1));
    if i < w.len() - 1 {
        lemma_hunting_before(front, i);
        assert(front.take(i) =~= w.take(i));
    }
}

/// A scan that has left the hunt does not come back to it.
pub proof fn lemma_hunt_is_over(state: HeaderScan, w: Seq<u8>)
    requires
        !(state is Hunting),
    ensures
        !(header_from(state, w) is Hunting),
    decreases w.len(),
{
    if w.len() > 0 {
        lemma_hunt_is_over(state, w.drop_last());
    }
}

/// Whether a header scan is still under way.
pub open spec fn header_under_way(state: HeaderScan) -> bool {
    state is Hunting || state is Encoding || state is Fields || state is Trailer
}

/// Whether a subpacket scan for a frame check of `crc_len` bytes is still
/// under way.
pub open spec fn packet_under_way(crc_len: nat, state: PacketScan) -> bool {
    match state {
        PacketScan::Body { .. } => true,
        PacketScan::Check { crc, .. } => crc.len() < crc_len,
        _ => false,
    }
}

/// A header scan that has not been overrun was under way at every read
/// before the last.
pub proof fn lemma_header_before(state: HeaderScan, w: Seq<u8>, i: int)
    requires
        header_under_way(state),
        !(header_from(state, w) is Overrun),
        0 <= i < w.len(),
    ensures
        header_under_way(header_from(state, w.take(i))),
    decreases w.len(),
{
    let front = w.drop_last();
    assert(front =~= w.take(w.len() - 1));
    if i < w.len() - 1 {
        lemma_header_before(state, front, i);
        assert(front.take(i) =~= w.take(i));
    } else if w.len() == 1 {
        assert(front =~= Seq::<u8>::empty());
    } else {
        lemma_header_before(state, front, i - 1);
    }
}

/// A subpacket scan that has not been overrun was under way at every read
/// before the last.
pub proof fn lemma_packet_before(limit: nat, crc_len: nat, w: Seq<u8>, i: int)
    requires
        !(packet_run(limit, crc_len, w) is Overrun),
        0 <= i < w.len(),
    ensures
        packet_under_way(crc_len, packet_run(limit, crc_len, w.take(i))),
    decreases w.len(),
{
    let front = w.drop_last();
    assert(front =~= w.take(w.len() - 1));
    if i < w.len() - 1 {
        lemma_packet_before(limit, crc_len, front, i);
        assert(front.take(i) =~= w.take(i));
    } else if w.len() == 1 {
        assert(front =~= Seq::<u8>::empty());
    } else {
        lemma_packet_before(limit, crc_len, front, i - 1);
    }
}

/// Seconds that the receiver waits for a byte once a transfer has begun.
pub const TIMEOUT_SECS: u64 = 600;

/// Milliseconds that the receiver waits for a byte before it announces
/// itself again.
pub const ADVERTISE_MILLIS: u64 = 500;

/// The wait for each byte once a transfer has begun: `TIMEOUT_SECS`
/// seconds.
pub open spec fn long_wait() -> (nat, nat) {
    (TIMEOUT_SECS as nat, 0)
}

/// The wait for each byte before a transfer has begun:
/// `ADVERTISE_MILLIS` milliseconds.
pub open spec fn short_wait() -> (nat, nat) {
    (0, (ADVERTISE_MILLIS * 1_000_000) as nat)
}

/// How long the read behind the bytes `w` of a frame header is to wait:
/// `hunt` while the start of the header is looked for, the long time
/// once it has been found.
pub open spec fn header_wait(w: Seq<u8>, hunt: (nat, nat)) -> (nat, nat) {
    if header_run(w) is Hunting {
        hunt
    } else {
        long_wait()
    }
}

/// How long the reads of a frame header were to wait that brought the
/// bytes `w`, `count` reads in all: `hunt` for each read up to the start
/// of the header, and `long_wait` for each read after it.
pub open spec fn header_waits(w: Seq<u8>, count: nat, hunt: (nat, nat)) -> Seq<(nat, nat)> {
    Seq::new(
        count,
        |i: int|
            header_wait(w.take(i), hunt),
    )
}

/// The bytes of the line end behind a hexadecimal header that are among
/// `wire`, for a scan that `wire` has carried to `state`: the last bytes
/// of `wire`, as many as the scan has taken for the line end.
pub open spec fn line_end_of(state: HeaderScan, wire: Seq<u8>) -> Seq<u8> {
    match state {
        HeaderScan::Done { encoding, values } => wire.skip(
            wire.len() - trailer_len(encoding, values[0]),
        ),
        HeaderScan::Trailer { seen, .. } => wire.skip(wire.len() - seen),
        _ => Seq::empty(),
    }
}

/// Whether `b`, as the byte at `index` of a line end, is not what a line
/// end holds there, as a count: carriage return first, then line feed
/// with any top bit, then `XON`.
pub open spec fn line_end_fault(index: nat, b: u8) -> nat {
    let right = if index == 0 {
        b == CR
    } else if index == 1 {
        b & 0x7f == LF
    } else {
        b == XON
    };
    if right {
        0
    } else {
        1
    }
}

/// How many of the first three bytes of the line end `ending` are not
/// what a line end holds.
pub open spec fn line_end_faults(ending: Seq<u8>) -> nat {
    let first = if ending.len() > 0 {
        line_end_fault(0, ending[0])
    } else {
        0
    };
    let second = if ending.len() > 1 {
        line_end_fault(1, ending[1])
    } else {
        0
    };
    let third = if ending.len() > 2 {
        line_end_fault(2, ending[2])
    } else {
        0
    };
    first + second + third
}

/// Whether a scan in `state` can have read the line end it holds from
/// `count` bytes.
pub open spec fn line_end_within(state: HeaderScan, count: nat) -> bool {
    match state {
        HeaderScan::Done { encoding, values } => trailer_len(encoding, values[0]) <= count,
        HeaderScan::Trailer { encoding, values, seen } => seen <= count && seen < trailer_len(
            encoding,
            values[0],
        ),
        _ => true,
    }
}

/// A header's line end lies within the bytes that were read for the
/// header, so bytes in front of them do not change it.
pub proof fn lemma_line_end_within(state: HeaderScan, head: Seq<u8>, wire: Seq<u8>)
    requires
        line_end_within(state, 0),
    ensures
        line_end_within(header_from(state, wire), wire.len()),
        line_end_of(header_from(state, wire), head + wire) == line_end_of(
            header_from(state, wire),
            wire,
        ),
    decreases wire.len(),
{
    if wire.len() > 0 {
        lemma_line_end_within(state, head, wire.drop_last());
    }
    let end = header_from(state, wire);
    match end {
        HeaderScan::Done { encoding, values } => {
            let n = trailer_len(encoding, values[0]);
            assert((head + wire).skip((head + wire).len() - n) =~= wire.skip(wire.len() - n));
        },
        HeaderScan::Trailer { seen, .. } => {
            assert((head + wire).skip((head + wire).len() - seen) =~= wire.skip(wire.len() - seen));
        },
        _ => {},
    }
}

/// What one more byte adds to the faults of a header's line end: its own
/// fault if the scan was reading the line end, and nothing otherwise.
pub proof fn lemma_line_end_push(state: HeaderScan, front: Seq<u8>, b: u8)
    requires
        line_end_within(state, 0),
        !(header_from(state, front.push(b)) is Overrun),
    ensures
        header_from(state, front.push(b)) == header_step(header_from(state, front), b),
        line_end_faults(line_end_of(header_from(state, front.push(b)), front.push(b)))
            == line_end_faults(line_end_of(header_from(state, front), front)) + (match header_from(
            state,
            front,
        ) {
            HeaderScan::Trailer { seen, .. } => line_end_fault(seen, b),
            _ => 0,
        }),
{
    let w = front.push(b);
    assert(w.drop_last() =~= front);
    let s = header_from(state, front);
    let t = header_step(s, b);
    lemma_line_end_within(state, Seq::empty(), front);
    lemma_line_end_within(state, Seq::empty(), w);
    match s {
        HeaderScan::Trailer { encoding, values, seen } => {
            let before = front.skip(front.len() - seen);
            let after = w.skip(w.len() - (seen + 1));
            assert(after =~= before.push(b));
            assert(line_end_of(s, front) == before);
            assert(line_end_of(t, w) == after);
        },
        _ => {
            assert(line_end_of(s, front) =~= Seq::<u8>::empty());
            assert(line_end_of(t, w) =~= Seq::<u8>::empty());
        },
    }
}

/// While a header is looked for, every read waits as the hunt does.
pub proof fn lemma_waits_hunting(w: Seq<u8>, count: nat, hunt: (nat, nat))
    requires
        header_run(w) is Hunting,
        count <= w.len() + 1,
    ensures
        header_waits(w, count, hunt) == Seq::new(count, |i: int| hunt),
{
    let uniform = Seq::new(count, |i: int| hunt);
    assert forall|i: int| 0 <= i < count implies uniform[i] == header_waits(w, count, hunt)[i] by {
        if i < w.len() {
            lemma_hunting_before(w, i);
        } else {
            assert(w.take(i) =~= w);
        }
    }
    assert(uniform =~= header_waits(w, count, hunt));
}

/// Once the start of a header has been found with the bytes `head`, the
/// reads that brought them have waited as the hunt does, and every read
/// behind them waits the long time.
pub proof fn lemma_waits_behind_start(head: Seq<u8>, tail: Seq<u8>, more: nat, hunt: (nat, nat))
    requires
        header_run(head) is Encoding,
        more <= tail.len() + 1,
    ensures
        header_waits(head + tail, head.len() + more, hunt) == Seq::new(head.len(), |i: int| hunt)
            + Seq::new(more, |i: int| long_wait()),
{
    let origin = HeaderScan::Hunting { after_pad: false };
    let w = head + tail;
    let first = Seq::new(head.len(), |i: int| hunt);
    let second = Seq::new(more, |i: int| long_wait());
    assert forall|i: int| 0 <= i < head.len() + more implies (first + second)[i] == header_waits(
        w,
        head.len() + more,
        hunt,
    )[i] by {
        if i < head.len() {
            lemma_hunting_before(head, i);
            assert(w.take(i) =~= head.take(i));
        } else {
            let rest = tail.take(i - head.len());
            assert(w.take(i) =~= head + rest);
            lemma_header_concat(origin, head, rest);
            lemma_hunt_is_over(HeaderScan::Encoding, rest);
        }
    }
    assert(first + second =~= header_waits(w, head.len() + more, hunt));
}

} // verus!
