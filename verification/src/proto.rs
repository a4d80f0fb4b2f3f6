//! Frame headers: the six bytes every ZMODEM frame starts with.

use vstd::prelude::*;
use crate::consts::{ZBIN, ZBIN32, ZHEX};

verus! {

/// How a frame is spelled on the line: one of `ZHEX`, `ZBIN`, `ZBIN32`,
/// `ZBINR32`, or a byte that names no encoding.
#[derive(Clone, Copy, Debug, PartialEq, Eq, Structural)]
pub struct FrameEncoding(pub u8);

/// What a frame is for: `ZRQINIT` to `ZSTDERR`, or a byte that names no
/// frame type.
#[derive(Clone, Copy, Debug, PartialEq, Eq, Structural)]
pub struct FrameType(pub u8);

/// The marker that ends a data subpacket: `ZCRCE` to `ZCRCW`.
#[derive(Clone, Copy, Debug, PartialEq, Eq, Structural)]
pub struct PacketType(pub u8);

impl FrameEncoding {
    /// Whether the receiver reads frames in this encoding.
    pub open spec fn receivable(self) -> bool {
        self.0 == ZHEX || self.0 == ZBIN || self.0 == ZBIN32
    }

    /// How many bytes the frame check of this encoding has.
    pub open spec fn crc_len(self) -> nat {
        if self.0 == ZBIN32 {
            4
        } else {
            2
        }
    }

    /// Whether the receiver reads frames in this encoding.
    pub fn is_receivable(&self) -> (r: bool)
        ensures
            r == self.receivable(),
    {
        self.0 == ZHEX || self.0 == ZBIN || self.0 == ZBIN32
    }
}

/// The four bytes of `x`, most significant first.
pub open spec fn be_bytes(x: u32) -> Seq<u8> {
    seq![
        (x / 0x100_0000) as u8,
        ((x / 0x1_0000) % 0x100) as u8,
        ((x / 0x100) % 0x100) as u8,
        (x % 0x100) as u8,
    ]
}

/// The four bytes of `x`, least significant first.
pub open spec fn le_bytes(x: u32) -> Seq<u8> {
    seq![
        (x % 0x100) as u8,
        ((x / 0x100) % 0x100) as u8,
        ((x / 0x1_0000) % 0x100) as u8,
        (x / 0x100_0000) as u8,
    ]
}

/// The two bytes of `x`, most significant first.
pub open spec fn be_bytes16(x: u16) -> Seq<u8> {
    seq![(x / 0x100) as u8, (x % 0x100) as u8]
}

/// The number that four bytes spell, most significant first.
pub open spec fn be_value(s: Seq<u8>) -> u32
    recommends
        s.len() == 4,
{
    (s[0] * 0x100_0000 + s[1] * 0x1_0000 + s[2] * 0x100 + s[3]) as u32
}

/// The number that two bytes spell, most significant first.
pub open spec fn be_value16(s: Seq<u8>) -> u16
    recommends
        s.len() == 2,
{
    (s[0] * 0x100 + s[1]) as u16
}

/// The four bytes of `x`, most significant first.
pub fn u32_to_be(x: u32) -> (r: [u8; 4])
    ensures
        r@ == be_bytes(x),
        be_value(r@) == x,
{
    proof {
        assert((x >> 24) == x / 0x100_0000 && ((x >> 16) & 0xff) == (x / 0x1_0000) % 0x100 && ((x
            >> 8) & 0xff) == (x / 0x100) % 0x100 && (x & 0xff) == x % 0x100 && (x >> 24) < 0x100)
            by (bit_vector);
    }
    let r = [(x >> 24) as u8, ((x >> 16) & 0xff) as u8, ((x >> 8) & 0xff) as u8, (x & 0xff) as u8];
    assert(r@ =~= be_bytes(x));
    r
}

/// The four bytes of `x`, least significant first.
pub fn u32_to_le(x: u32) -> (r: [u8; 4])
    ensures
        r@ == le_bytes(x),
{
    proof {
        assert((x >> 24) == x / 0x100_0000 && ((x >> 16) & 0xff) == (x / 0x1_0000) % 0x100 && ((x
            >> 8) & 0xff) == (x / 0x100) % 0x100 && (x & 0xff) == x % 0x100 && (x >> 24) < 0x100)
            by (bit_vector);
    }
    let r = [(x & 0xff) as u8, ((x >> 8) & 0xff) as u8, ((x >> 16) & 0xff) as u8, (x >> 24) as u8];
    assert(r@ =~= le_bytes(x));
    r
}

/// The two bytes of `x`, most significant first.
pub fn u16_to_be(x: u16) -> (r: [u8; 2])
    ensures
        r@ == be_bytes16(x),
        be_value16(r@) == x,
{
    proof {
        assert((x >> 8) == x / 0x100 && (x & 0xff) == x % 0x100 && (x >> 8) < 0x100)
            by (bit_vector);
    }
    let r = [(x >> 8) as u8, (x & 0xff) as u8];
    assert(r@ =~= be_bytes16(x));
    r
}

/// The number that four bytes spell, most significant first.
pub fn u32_from_be(bytes: [u8; 4]) -> (x: u32)
    ensures
        x == be_value(bytes@),
{
    let a = bytes[0] as u32;
    let b = bytes[1] as u32;
    let c = bytes[2] as u32;
    let d = bytes[3] as u32;
    a * 0x100_0000 + b * 0x1_0000 + c * 0x100 + d
}

/// The number that two bytes spell, most significant first.
pub fn u16_from_be(bytes: [u8; 2]) -> (x: u16)
    ensures
        x == be_value16(bytes@),
{
    let a = bytes[0] as u16;
    let b = bytes[1] as u16;
    a * 0x100 + b
}

/// The header of a frame: how it is encoded, what it is for, and four bytes
/// of flags or of a count.
#[derive(Clone, Copy, Debug)]
pub struct FrameHeader {
    pub encoding: FrameEncoding,
    pub frame_type: FrameType,
    pub data: [u8; 4],
}

impl FrameHeader {
    /// The header as six bytes: encoding, type, then the four data bytes.
    pub open spec fn bytes(self) -> Seq<u8> {
        seq![self.encoding.0, self.frame_type.0] + self.data@
    }

    /// The five bytes that the frame check covers: type and data.
    pub open spec fn checked_bytes(self) -> Seq<u8> {
        seq![self.frame_type.0] + self.data@
    }

    /// A header with all four data bytes zero.
    pub fn new(encoding: FrameEncoding, frame_type: FrameType) -> (h: FrameHeader)
        ensures
            h.encoding == encoding,
            h.frame_type == frame_type,
            h.data@ == seq![0u8, 0u8, 0u8, 0u8],
    {
        let h = FrameHeader { encoding, frame_type, data: [0, 0, 0, 0] };
        assert(h.data@ =~= seq![0u8, 0u8, 0u8, 0u8]);
        h
    }

    /// The same header with `flags` as its data, most significant byte
    /// first.
    pub fn set_flags(self, flags: u32) -> (h: FrameHeader)
        ensures
            h.encoding == self.encoding,
            h.frame_type == self.frame_type,
            h.data@ == be_bytes(flags),
    {
        FrameHeader { encoding: self.encoding, frame_type: self.frame_type, data: u32_to_be(flags) }
    }

    /// The same header with `count` as its data, least significant byte
    /// first.
    pub fn set_count(self, count: u32) -> (h: FrameHeader)
        ensures
            h.encoding == self.encoding,
            h.frame_type == self.frame_type,
            h.data@ == le_bytes(count),
    {
        FrameHeader { encoding: self.encoding, frame_type: self.frame_type, data: u32_to_le(count) }
    }

    /// Type and data: the five bytes that the frame check covers.
    pub fn to_checked_bytes(&self) -> (r: [u8; 5])
        ensures
            r@ == self.checked_bytes(),
    {
        let r = [self.frame_type.0, self.data[0], self.data[1], self.data[2], self.data[3]];
        assert(r@ =~= self.checked_bytes());
        r
    }
}

} // verus!
