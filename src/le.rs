//! Little-endian fields of four and eight bytes.
use byteorder::{ByteOrder, LittleEndian};
use vstd::prelude::*;

verus! {

/// The value of four little-endian bytes.
pub open spec fn le_u32(b: Seq<u8>) -> u32 {
    (b[0] as u32) | ((b[1] as u32) << 8u32) | ((b[2] as u32) << 16u32) | ((b[3] as u32) << 24u32)
}

/// The four little-endian bytes of a value.
pub open spec fn u32_le_bytes(v: u32) -> Seq<u8> {
    seq![v as u8, (v >> 8u32) as u8, (v >> 16u32) as u8, (v >> 24u32) as u8]
}

/// The value of eight little-endian bytes.
pub open spec fn le_u64(b: Seq<u8>) -> u64 {
    (b[0] as u64) | ((b[1] as u64) << 8u64) | ((b[2] as u64) << 16u64) | ((b[3] as u64) << 24u64)
        | ((b[4] as u64) << 32u64) | ((b[5] as u64) << 40u64) | ((b[6] as u64) << 48u64)
        | ((b[7] as u64) << 56u64)
}

/// The eight little-endian bytes of a value.
pub open spec fn u64_le_bytes(v: u64) -> Seq<u8> {
    seq![
        v as u8,
        (v >> 8u64) as u8,
        (v >> 16u64) as u8,
        (v >> 24u64) as u8,
        (v >> 32u64) as u8,
        (v >> 40u64) as u8,
        (v >> 48u64) as u8,
        (v >> 56u64) as u8,
    ]
}

/// Reading back the bytes written for a value gives the value.
pub proof fn lemma_u32_round_trip(v: u32)
    ensures
        le_u32(u32_le_bytes(v)) == v,
{
    let b = u32_le_bytes(v);
    assert(b[0] == v as u8 && b[1] == (v >> 8u32) as u8 && b[2] == (v >> 16u32) as u8 && b[3] == (
    v >> 24u32) as u8);
    assert(((v as u8) as u32) | ((((v >> 8u32) as u8) as u32) << 8u32) | ((((v >> 16u32) as u8)
        as u32) << 16u32) | ((((v >> 24u32) as u8) as u32) << 24u32) == v) by (bit_vector);
}

/// Reading back the bytes written for a value gives the value.
pub proof fn lemma_u64_round_trip(v: u64)
    ensures
        le_u64(u64_le_bytes(v)) == v,
{
    let b = u64_le_bytes(v);
    assert(b[0] == v as u8 && b[1] == (v >> 8u64) as u8 && b[2] == (v >> 16u64) as u8 && b[3] == (
    v >> 24u64) as u8 && b[4] == (v >> 32u64) as u8 && b[5] == (v >> 40u64) as u8 && b[6] == (v
        >> 48u64) as u8 && b[7] == (v >> 56u64) as u8);
    assert(((v as u8) as u64) | ((((v >> 8u64) as u8) as u64) << 8u64) | ((((v >> 16u64) as u8)
        as u64) << 16u64) | ((((v >> 24u64) as u8) as u64) << 24u64) | ((((v >> 32u64) as u8)
        as u64) << 32u64) | ((((v >> 40u64) as u8) as u64) << 40u64) | ((((v >> 48u64) as u8)
        as u64) << 48u64) | ((((v >> 56u64) as u8) as u64) << 56u64) == v) by (bit_vector);
}

/// Relies on byteorder's `LittleEndian::read_u32`: the value of the first
/// four bytes of the slice, least significant first.
#[verifier::external_body]
pub(crate) fn read_u32_at(buf: &[u8], off: usize) -> (r: u32)
    requires
        off + 4 <= buf@.len(),
    ensures
        r == le_u32(buf@.subrange(off as int, off + 4)),
{
    LittleEndian::read_u32(&buf[off..off + 4])
}

/// Relies on byteorder's `LittleEndian::read_u64`: the value of the first
/// eight bytes of the slice, least significant first.
#[verifier::external_body]
pub(crate) fn read_u64_at(buf: &[u8], off: usize) -> (r: u64)
    requires
        off + 8 <= buf@.len(),
    ensures
        r == le_u64(buf@.subrange(off as int, off + 8)),
{
    LittleEndian::read_u64(&buf[off..off + 8])
}

/// Relies on byteorder's `LittleEndian::write_u32`: it overwrites the first
/// four bytes of the slice with the value, least significant first, and
/// leaves the rest alone.
#[verifier::external_body]
pub(crate) fn write_u32_at(buf: &mut Vec<u8>, off: usize, v: u32)
    requires
        off + 4 <= old(buf)@.len(),
    ensures
        final(buf)@ == old(buf)@.subrange(0, off as int) + u32_le_bytes(v) + old(buf)@.subrange(
            off + 4,
            old(buf)@.len() as int,
        ),
{
    LittleEndian::write_u32(&mut buf[off..off + 4], v)
}

/// Relies on byteorder's `LittleEndian::write_u64`: it overwrites the first
/// eight bytes of the slice with the value, least significant first, and
/// leaves the rest alone.
#[verifier::external_body]
pub(crate) fn write_u64_at(buf: &mut Vec<u8>, off: usize, v: u64)
    requires
        off + 8 <= old(buf)@.len(),
    ensures
        final(buf)@ == old(buf)@.subrange(0, off as int) + u64_le_bytes(v) + old(buf)@.subrange(
            off + 8,
            old(buf)@.len() as int,
        ),
{
    LittleEndian::write_u64(&mut buf[off..off + 8], v)
}

} // verus!
