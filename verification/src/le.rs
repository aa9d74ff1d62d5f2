//! Little-endian integers in byte buffers, read and written by `byteorder`.

use byteorder::{ByteOrder, LittleEndian};
use vstd::prelude::*;

verus! {

/// The 16-bit number that the first two bytes of `bytes` hold, low byte first.
#[verifier::opaque]
pub open spec fn le_u16(bytes: Seq<u8>) -> nat {
    (bytes[0] + 0x100 * bytes[1]) as nat
}

/// The 32-bit number that the first four bytes of `bytes` hold, low byte first.
#[verifier::opaque]
pub open spec fn le_u32(bytes: Seq<u8>) -> nat {
    (bytes[0] + 0x100 * bytes[1] + 0x1_0000 * bytes[2] + 0x100_0000 * bytes[3]) as nat
}

/// The number that a 32-bit pattern stands for in two's complement.
pub open spec fn signed(pattern: nat) -> int {
    if pattern < 0x8000_0000 {
        pattern as int
    } else {
        pattern - 0x1_0000_0000
    }
}

/// The 32-bit pattern that stands for `n` in two's complement.
pub open spec fn pattern(n: int) -> nat {
    if n >= 0 {
        n as nat
    } else {
        (n + 0x1_0000_0000) as nat
    }
}

/// The two bytes that hold `n`, low byte first.
#[verifier::opaque]
pub open spec fn le_bytes_u16(n: nat) -> Seq<u8> {
    seq![(n % 0x100) as u8, ((n / 0x100) % 0x100) as u8]
}

/// The four bytes that hold `n`, low byte first.
#[verifier::opaque]
pub open spec fn le_bytes_u32(n: nat) -> Seq<u8> {
    seq![
        (n % 0x100) as u8,
        ((n / 0x100) % 0x100) as u8,
        ((n / 0x1_0000) % 0x100) as u8,
        ((n / 0x100_0000) % 0x100) as u8,
    ]
}

/// `byteorder::LittleEndian::read_u16`, which panics on a buffer of fewer
/// than two bytes and otherwise returns the number that the first two hold,
/// low byte first. Believed, not proved.
#[verifier::external_body]
pub(crate) fn read_u16(buf: &[u8]) -> (v: u16)
    requires
        buf@.len() >= 2,
    ensures
        v == le_u16(buf@),
{
    LittleEndian::read_u16(buf)
}

/// `byteorder::LittleEndian::read_u32`, which panics on a buffer of fewer
/// than four bytes and otherwise returns the number that the first four
/// hold, low byte first. Believed, not proved.
#[verifier::external_body]
pub(crate) fn read_u32(buf: &[u8]) -> (v: u32)
    requires
        buf@.len() >= 4,
    ensures
        v == le_u32(buf@),
{
    LittleEndian::read_u32(buf)
}

/// `byteorder::LittleEndian::read_i32`, which reads as `read_u32` does and
/// takes the 32 bits as a number in two's complement. Believed, not proved.
#[verifier::external_body]
pub(crate) fn read_i32(buf: &[u8]) -> (v: i32)
    requires
        buf@.len() >= 4,
    ensures
        v == signed(le_u32(buf@)),
{
    LittleEndian::read_i32(buf)
}

/// `byteorder::LittleEndian::write_u16`, called on a buffer of two bytes,
/// which it fills with `n`, low byte first. Believed, not proved.
#[verifier::external_body]
pub(crate) fn write_u16(n: u16) -> (out: [u8; 2])
    ensures
        out@ == le_bytes_u16(n as nat),
{
    let mut out = [0u8; 2];
    LittleEndian::write_u16(&mut out, n);
    out
}

/// `byteorder::LittleEndian::write_u32`, called on a buffer of four bytes,
/// which it fills with `n`, low byte first. Believed, not proved.
#[verifier::external_body]
pub(crate) fn write_u32(n: u32) -> (out: [u8; 4])
    ensures
        out@ == le_bytes_u32(n as nat),
{
    let mut out = [0u8; 4];
    LittleEndian::write_u32(&mut out, n);
    out
}

/// `byteorder::LittleEndian::write_i32`, called on a buffer of four bytes,
/// which it fills with the two's complement pattern of `n`, low byte first.
/// Believed, not proved.
#[verifier::external_body]
pub(crate) fn write_i32(n: i32) -> (out: [u8; 4])
    ensures
        out@ == le_bytes_u32(pattern(n as int)),
{
    let mut out = [0u8; 4];
    LittleEndian::write_i32(&mut out, n);
    out
}

/// Numbers are held by two bytes, or by four.
pub proof fn lemma_le_bytes_len()
    ensures
        forall|n: nat| #[trigger] le_bytes_u16(n).len() == 2,
        forall|n: nat| #[trigger] le_bytes_u32(n).len() == 4,
{
    reveal(le_bytes_u16);
    reveal(le_bytes_u32);
}

/// A number that fits in 16 bits is read back from the two bytes that hold
/// it, and one that fits in 32 bits from the four bytes that hold it.
pub proof fn lemma_le_round_trip(n: nat)
    ensures
        n < 0x1_0000 ==> le_u16(le_bytes_u16(n)) == n,
        n < 0x1_0000_0000 ==> le_u32(le_bytes_u32(n)) == n,
{
    reveal(le_u16);
    reveal(le_u32);
    reveal(le_bytes_u16);
    reveal(le_bytes_u32);
}

/// A number and its 32-bit pattern in two's complement stand for each other.
pub proof fn lemma_pattern_round_trip(n: int)
    requires
        -0x8000_0000 <= n < 0x8000_0000,
    ensures
        pattern(n) < 0x1_0000_0000,
        signed(pattern(n)) == n,
{
}

} // verus!
