//! The two frame checks: CRC-16/XMODEM and the 32-bit CRC of ISO HDLC.

use vstd::prelude::*;

verus! {

/// One bit of CRC-16/XMODEM: shift left, and fold the polynomial `0x1021`
/// in when the bit shifted out was set.
pub open spec fn crc16_shift(crc: u16) -> u16 {
    if crc & 0x8000 != 0 {
        (crc << 1) ^ 0x1021
    } else {
        crc << 1
    }
}

/// `n` bits of CRC-16/XMODEM.
pub open spec fn crc16_shifts(crc: u16, n: nat) -> u16
    decreases n,
{
    if n == 0 {
        crc
    } else {
        crc16_shifts(crc16_shift(crc), (n - 1) as nat)
    }
}

/// The running CRC-16 after one more byte.
pub open spec fn crc16_step(crc: u16, byte: u8) -> u16 {
    crc16_shifts(crc ^ ((byte as u16) << 8), 8)
}

/// The running CRC-16 after the bytes of `s`, in order, starting from `crc`.
pub open spec fn crc16_fold(crc: u16, s: Seq<u8>) -> u16
    decreases s.len(),
{
    if s.len() == 0 {
        crc
    } else {
        crc16_step(crc16_fold(crc, s.drop_last()), s.last())
    }
}

/// CRC-16/XMODEM of `s`: polynomial `0x1021`, initial value zero, most
/// significant bit first, no reflection, no final XOR.
pub open spec fn spec_crc16(s: Seq<u8>) -> u16 {
    crc16_fold(0, s)
}

/// One bit of the reflected 32-bit CRC: shift right, and fold the
/// polynomial `0xEDB88320` in when the bit shifted out was set.
pub open spec fn crc32_shift(crc: u32) -> u32 {
    if crc & 1 != 0 {
        (crc >> 1) ^ 0xEDB8_8320
    } else {
        crc >> 1
    }
}

/// `n` bits of the reflected 32-bit CRC.
pub open spec fn crc32_shifts(crc: u32, n: nat) -> u32
    decreases n,
{
    if n == 0 {
        crc
    } else {
        crc32_shifts(crc32_shift(crc), (n - 1) as nat)
    }
}

/// The running 32-bit CRC register after one more byte.
pub open spec fn crc32_step(crc: u32, byte: u8) -> u32 {
    crc32_shifts(crc ^ (byte as u32), 8)
}

/// The running 32-bit CRC register after the bytes of `s`, in order.
pub open spec fn crc32_fold(crc: u32, s: Seq<u8>) -> u32
    decreases s.len(),
{
    if s.len() == 0 {
        crc
    } else {
        crc32_step(crc32_fold(crc, s.drop_last()), s.last())
    }
}

/// The 32-bit CRC of `s`: polynomial `0xEDB88320` reflected, register
/// started at all ones and inverted at the end.
pub open spec fn spec_crc32(s: Seq<u8>) -> u32 {
    crc32_fold(0xFFFF_FFFF, s) ^ 0xFFFF_FFFF
}

/// `s`, with `extra` behind it where there is one.
pub open spec fn with_trailer(s: Seq<u8>, extra: Option<u8>) -> Seq<u8> {
    match extra {
        Some(b) => s.push(b),
        None => s,
    }
}

/// Folds one byte into a running CRC-16/XMODEM.
pub fn crc16_update(crc: u16, byte: u8) -> (r: u16)
    ensures
        r == crc16_step(crc, byte),
{
    let mut c: u16 = crc ^ ((byte as u16) << 8);
    let mut k: u8 = 0;
    while k < 8
        invariant
            k <= 8,
            crc16_shifts(c, (8 - k) as nat) == crc16_step(crc, byte),
        decreases 8 - k,
    {
        c = if c & 0x8000 != 0 {
            (c << 1) ^ 0x1021
        } else {
            c << 1
        };
        k += 1;
    }
    c
}

/// Folds one byte into a running 32-bit CRC register.
pub fn crc32_update(crc: u32, byte: u8) -> (r: u32)
    ensures
        r == crc32_step(crc, byte),
{
    let mut c: u32 = crc ^ (byte as u32);
    let mut k: u8 = 0;
    while k < 8
        invariant
            k <= 8,
            crc32_shifts(c, (8 - k) as nat) == crc32_step(crc, byte),
        decreases 8 - k,
    {
        c = if c & 1 != 0 {
            (c >> 1) ^ 0xEDB8_8320
        } else {
            c >> 1
        };
        k += 1;
    }
    c
}

/// CRC-16/XMODEM of `bytes`, computed bit by bit.
pub fn checksum(bytes: &[u8]) -> (crc: u16)
    ensures
        crc == spec_crc16(bytes@),
{
    let mut checksum: u16 = 0;
    let mut i: usize = 0;
    while i < bytes.len()
        invariant
            i <= bytes.len(),
            checksum == crc16_fold(0, bytes@.take(i as int)),
        decreases bytes.len() - i,
    {
        proof {
            assert(bytes@.take(i + 1).drop_last() =~= bytes@.take(i as int));
        }
        checksum = crc16_update(checksum, bytes[i]);
        i += 1;
    }
    proof {
        assert(bytes@.take(i as int) =~= bytes@);
    }
    checksum
}

/// `Crc::<u16>::new(&CRC_16_XMODEM).checksum(..)` of the crate `crc`: the
/// table-driven CRC-16 with polynomial `0x1021`, initial value zero, no
/// reflection and no final XOR. Taken on trust: that the table lookup gives
/// what the bit-by-bit definition gives.
#[verifier::external_body]
fn crc16_xmodem(buf: &[u8]) -> (r: u16)
    ensures
        r == spec_crc16(buf@),
{
    crc::Crc::<u16>::new(&crc::CRC_16_XMODEM).checksum(buf)
}

/// `Crc::<u32>::new(&CRC_32_ISO_HDLC).checksum(..)` of the crate `crc`: the
/// table-driven reflected CRC-32 with polynomial `0x04c11db7`, register
/// started at all ones and inverted at the end. Taken on trust: that the
/// table lookup gives what the bit-by-bit definition gives.
#[verifier::external_body]
fn crc32_iso_hdlc(buf: &[u8]) -> (r: u32)
    ensures
        r == spec_crc32(buf@),
{
    crc::Crc::<u32>::new(&crc::CRC_32_ISO_HDLC).checksum(buf)
}

/// CRC-16/XMODEM over `buf`, and then over `extra` where there is one.
pub fn crc16(buf: &[u8], extra: Option<u8>) -> (r: u16)
    ensures
        r == spec_crc16(with_trailer(buf@, extra)),
{
    let crc = crc16_xmodem(buf);
    match extra {
        Some(byte) => {
            proof {
                assert(buf@.push(byte).drop_last() =~= buf@);
            }
            crc16_update(crc, byte)
        },
        None => crc,
    }
}

/// The 32-bit CRC over `buf`, and then over `extra` where there is one.
pub fn crc32(buf: &[u8], extra: Option<u8>) -> (r: u32)
    ensures
        r == spec_crc32(with_trailer(buf@, extra)),
{
    let crc = crc32_iso_hdlc(buf);
    match extra {
        Some(byte) => {
            proof {
                assert(buf@.push(byte).drop_last() =~= buf@);
                let reg = crc32_fold(0xFFFF_FFFF, buf@);
                assert((reg ^ 0xFFFF_FFFFu32) ^ 0xFFFF_FFFFu32 == reg) by (bit_vector);
            }
            crc32_update(crc ^ 0xFFFF_FFFF, byte) ^ 0xFFFF_FFFF
        },
        None => crc,
    }
}

proof fn lemma_shift_xor(a: u16, b: u16)
    ensures
        crc16_shift(a ^ b) == crc16_shift(a) ^ crc16_shift(b),
{
    assert(crc16_shift(a ^ b) == crc16_shift(a) ^ crc16_shift(b)) by (bit_vector);
}

proof fn lemma_shift_nonzero(d: u16)
    requires
        d != 0,
    ensures
        crc16_shift(d) != 0,
{
    assert(d != 0 ==> crc16_shift(d) != 0) by (bit_vector);
}

proof fn lemma_shifts_xor(a: u16, b: u16, n: nat)
    ensures
        crc16_shifts(a ^ b, n) == crc16_shifts(a, n) ^ crc16_shifts(b, n),
    decreases n,
{
    if n > 0 {
        lemma_shift_xor(a, b);
        lemma_shifts_xor(crc16_shift(a), crc16_shift(b), (n - 1) as nat);
    }
}

proof fn lemma_shifts_nonzero(d: u16, n: nat)
    requires
        d != 0,
    ensures
        crc16_shifts(d, n) != 0,
    decreases n,
{
    if n > 0 {
        lemma_shift_nonzero(d);
        lemma_shifts_nonzero(crc16_shift(d), (n - 1) as nat);
    }
}

/// What a difference `d` in the running CRC-16 has become after `n` more
/// bytes: the difference does not depend on the bytes.
pub open spec fn crc16_carry(d: u16, n: nat) -> u16
    decreases n,
{
    if n == 0 {
        d
    } else {
        crc16_shifts(crc16_carry(d, (n - 1) as nat), 8)
    }
}

proof fn lemma_carry_nonzero(d: u16, n: nat)
    requires
        d != 0,
    ensures
        crc16_carry(d, n) != 0,
    decreases n,
{
    if n > 0 {
        lemma_carry_nonzero(d, (n - 1) as nat);
        lemma_shifts_nonzero(crc16_carry(d, (n - 1) as nat), 8);
    }
}

proof fn lemma_step_xor_state(crc: u16, d: u16, byte: u8)
    ensures
        crc16_step(crc ^ d, byte) == crc16_step(crc, byte) ^ crc16_shifts(d, 8),
{
    let x = (byte as u16) << 8;
    assert((crc ^ d) ^ x == (crc ^ x) ^ d) by (bit_vector);
    lemma_shifts_xor(crc ^ x, d, 8);
}

proof fn lemma_step_xor_byte(crc: u16, byte: u8, e: u8)
    ensures
        crc16_step(crc, byte ^ e) == crc16_step(crc, byte) ^ crc16_shifts((e as u16) << 8, 8),
{
    let x = (byte as u16) << 8;
    let y = (e as u16) << 8;
    assert(crc ^ (((byte ^ e) as u16) << 8) == (crc ^ ((byte as u16) << 8)) ^ ((e as u16) << 8))
        by (bit_vector);
    lemma_shifts_xor(crc ^ x, y, 8);
}

/// XOR-ing `e` into the byte at `i` changes the CRC-16 of `s` by a value
/// that depends only on `e` and on how many bytes follow.
proof fn lemma_fold_flip(crc: u16, s: Seq<u8>, i: int, e: u8)
    requires
        0 <= i < s.len(),
    ensures
        crc16_fold(crc, s.update(i, s[i] ^ e)) == crc16_fold(crc, s) ^ crc16_carry(
            crc16_shifts((e as u16) << 8, 8),
            (s.len() - 1 - i) as nat,
        ),
    decreases s.len(),
{
    let t = s.update(i, s[i] ^ e);
    if i == s.len() - 1 {
        assert(t.drop_last() =~= s.drop_last());
        lemma_step_xor_byte(crc16_fold(crc, s.drop_last()), s.last(), e);
    } else {
        assert(t.drop_last() =~= s.drop_last().update(i, s.drop_last()[i] ^ e));
        lemma_fold_flip(crc, s.drop_last(), i, e);
        let d = crc16_carry(crc16_shifts((e as u16) << 8, 8), (s.len() - 2 - i) as nat);
        lemma_step_xor_state(crc16_fold(crc, s.drop_last()), d, s.last());
    }
}

/// A CRC-16 never survives the flip of a single bit: whichever bit of
/// whichever byte of `s` is inverted, the checksum changes.
pub proof fn crc16_detects_bit_flip(s: Seq<u8>, i: int, bit: u8)
    requires
        0 <= i < s.len(),
        bit < 8,
    ensures
        spec_crc16(s.update(i, s[i] ^ (1u8 << bit))) != spec_crc16(s),
{
    let e = 1u8 << bit;
    let y = (e as u16) << 8;
    assert(bit < 8 ==> ((1u8 << bit) as u16) << 8 != 0) by (bit_vector);
    lemma_shifts_nonzero(y, 8);
    lemma_carry_nonzero(crc16_shifts(y, 8), (s.len() - 1 - i) as nat);
    lemma_fold_flip(0, s, i, e);
    let c = spec_crc16(s);
    let d = crc16_carry(crc16_shifts(y, 8), (s.len() - 1 - i) as nat);
    assert(d != 0 ==> c ^ d != c) by (bit_vector);
}

} // verus!
