//! Receiving files over a serial line: the ZMODEM receiver, the XMODEM-CRC
//! receiver and sender, and the byte codecs and checksums they share.

pub mod consts;
pub mod crc;
pub mod device;
pub mod escape;
pub mod hex;
pub mod proto;
pub mod recv;
pub mod sender;
pub mod session;
pub mod time;
pub mod transfer;
pub mod uart;
pub mod wire;
pub mod xmodem;

pub use crc::{crc16, crc32};
pub use device::{Error, SerialDevice};
pub use hex::FromHexError;
pub use recv::Receiver;
pub use transfer::receive;
