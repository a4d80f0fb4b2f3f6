//! Bytes with a fixed meaning on the serial line.

use vstd::prelude::*;

verus! {

pub const SOH: u8 = 0x01;

pub const STX: u8 = 0x02;

pub const EOT: u8 = 0x04;

pub const ENQ: u8 = 0x05;

pub const ACK: u8 = 0x06;

pub const LF: u8 = 0x0a;

pub const CR: u8 = 0x0d;

pub const DLE: u8 = 0x10;

pub const XON: u8 = 0x11;

pub const XOFF: u8 = 0x13;

pub const NAK: u8 = 0x15;

pub const ETB: u8 = 0x17;

pub const CAN: u8 = 0x18;

/// Padding byte that opens every frame.
pub const ZPAD: u8 = 0x2a;

/// Data-link escape: the byte after it is not a literal data byte.
pub const ZDLE: u8 = 0x18;

/// Escaped form of `ZDLE` itself.
pub const ZDLEE: u8 = 0x58;

/// Subpacket end, no more subpackets in this frame.
pub const ZCRCE: u8 = 0x68;

/// Subpacket end, more subpackets follow without a pause.
pub const ZCRCG: u8 = 0x69;

/// Subpacket end, more subpackets follow and an acknowledgement is asked for.
pub const ZCRCQ: u8 = 0x6a;

/// Subpacket end, the sender waits for an acknowledgement.
pub const ZCRCW: u8 = 0x6b;

/// Escaped form of `0x7f`.
pub const ZRUB0: u8 = 0x6c;

/// Escaped form of `0xff`.
pub const ZRUB1: u8 = 0x6d;

pub const ZVBIN: u8 = 0x61;

pub const ZVHEX: u8 = 0x62;

pub const ZVBIN32: u8 = 0x63;

pub const ZVBINR32: u8 = 0x64;

pub const ZRESC: u8 = 0x7e;

/// Frame encoding: binary with a 16-bit CRC (`'A'`).
pub const ZBIN: u8 = 0x41;

/// Frame encoding: hexadecimal text with a 16-bit CRC (`'B'`).
pub const ZHEX: u8 = 0x42;

/// Frame encoding: binary with a 32-bit CRC (`'C'`).
pub const ZBIN32: u8 = 0x43;

/// Frame encoding: run-length binary with a 32-bit CRC (`'D'`).
pub const ZBINR32: u8 = 0x44;

pub const ZRQINIT: u8 = 0x00;

pub const ZRINIT: u8 = 0x01;

pub const ZSINIT: u8 = 0x02;

pub const ZACK: u8 = 0x03;

pub const ZFILE: u8 = 0x04;

pub const ZSKIP: u8 = 0x05;

pub const ZNAK: u8 = 0x06;

pub const ZABORT: u8 = 0x07;

pub const ZFIN: u8 = 0x08;

pub const ZRPOS: u8 = 0x09;

pub const ZDATA: u8 = 0x0a;

pub const ZEOF: u8 = 0x0b;

pub const ZFERROR: u8 = 0x0c;

pub const ZCRC: u8 = 0x0d;

pub const ZCHALLENGE: u8 = 0x0e;

pub const ZCOMPL: u8 = 0x0f;

pub const ZCAN: u8 = 0x10;

pub const ZFREECNT: u8 = 0x11;

pub const ZCOMMAND: u8 = 0x12;

pub const ZSTDERR: u8 = 0x13;

/// Receiver capability: full-duplex operation.
pub const CANFDX: u16 = 0x01;

/// Receiver capability: can receive while writing to disk.
pub const CANOVIO: u16 = 0x02;

/// Receiver capability: can send a break signal.
pub const CANBRK: u16 = 0x04;

/// Receiver capability: can decrypt.
pub const CANCRY: u16 = 0x08;

/// Receiver capability: can decompress.
pub const CANLZW: u16 = 0x10;

/// Receiver capability: can use a 32-bit frame check.
pub const CANFC32: u16 = 0x20;

/// Receiver capability: expects control characters to be escaped.
pub const ESCCTL: u16 = 0x40;

/// Receiver capability: expects the eighth bit to be escaped.
pub const ESC8: u16 = 0x80;

} // verus!
