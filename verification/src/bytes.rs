//! Big-endian fixed-width fields: how sixteen- and thirty-two-bit values lie
//! in a byte sequence, with bounded reads and append-style writes.

use vstd::prelude::*;

use crate::errors::DecodeError;

verus! {

/// The sixteen-bit value held big-endian at position `i` of `b`.
pub open spec fn be16_at(b: Seq<u8>, i: int) -> u16
    recommends
        0 <= i,
        i + 2 <= b.len(),
{
    ((b[i] as int) * 256 + (b[i + 1] as int)) as u16
}

/// The two big-endian bytes of a sixteen-bit value.
pub open spec fn be16_bytes(x: u16) -> Seq<u8> {
    seq![(x / 256) as u8, (x % 256) as u8]
}

/// The thirty-two-bit value held big-endian at position `i` of `b`.
pub open spec fn be32_at(b: Seq<u8>, i: int) -> u32
    recommends
        0 <= i,
        i + 4 <= b.len(),
{
    ((b[i] as int) * 0x1000000 + (b[i + 1] as int) * 0x10000 + (b[i + 2] as int) * 256 + (b[i
        + 3] as int)) as u32
}

/// The four big-endian bytes of a thirty-two-bit value.
pub open spec fn be32_bytes(x: u32) -> Seq<u8> {
    seq![
        (x / 0x1000000) as u8,
        ((x / 0x10000) % 256) as u8,
        ((x / 256) % 256) as u8,
        (x % 256) as u8,
    ]
}

/// A sixteen-bit value survives the trip through its two wire bytes.
pub proof fn lemma_be16_roundtrip(x: u16)
    ensures
        be16_at(be16_bytes(x), 0) == x,
{
    assert((x / 256) * 256 + (x % 256) == x) by (nonlinear_arith);
}

/// Two wire bytes survive the trip through the value they hold.
pub proof fn lemma_be16_bytes_of(b0: u8, b1: u8)
    ensures
        be16_bytes(((b0 as int) * 256 + (b1 as int)) as u16) == seq![b0, b1],
{
    let x = ((b0 as int) * 256 + (b1 as int)) as u16;
    assert(x == (b0 as u16) * 256 + (b1 as u16));
    assert(x / 256 == b0 as u16 && x % 256 == b1 as u16) by (bit_vector)
        requires
            x == (b0 as u16) * 256 + (b1 as u16),
    ;
    assert(be16_bytes(x) =~= seq![b0, b1]);
}

/// A thirty-two-bit value survives the trip through its four wire bytes.
pub proof fn lemma_be32_roundtrip(x: u32)
    ensures
        be32_at(be32_bytes(x), 0) == x,
{
    assert((x / 0x1000000) * 0x1000000 + ((x / 0x10000) % 256) * 0x10000 + ((x / 256) % 256) * 256
        + (x % 256) == x) by (bit_vector);
}

/// Four wire bytes survive the trip through the value they hold.
pub proof fn lemma_be32_bytes_of(b0: u8, b1: u8, b2: u8, b3: u8)
    ensures
        be32_bytes(((b0 as int) * 0x1000000 + (b1 as int) * 0x10000 + (b2 as int) * 256 + (
        b3 as int)) as u32) == seq![b0, b1, b2, b3],
{
    let x = ((b0 as int) * 0x1000000 + (b1 as int) * 0x10000 + (b2 as int) * 256 + (
    b3 as int)) as u32;
    assert(x == (b0 as u32) * 0x1000000 + (b1 as u32) * 0x10000 + (b2 as u32) * 256 + (b3 as u32));
    assert(x / 0x1000000 == b0 as u32 && (x / 0x10000) % 256 == b1 as u32 && (x / 256) % 256
        == b2 as u32 && x % 256 == b3 as u32) by (bit_vector)
        requires
            x == (b0 as u32) * 0x1000000 + (b1 as u32) * 0x10000 + (b2 as u32) * 256 + (b3 as u32),
    ;
    assert(be32_bytes(x) =~= seq![b0, b1, b2, b3]);
}

/// Appends the two big-endian bytes of `x` to `buf`.
pub fn push_u16(buf: &mut Vec<u8>, x: u16)
    ensures
        final(buf)@ == old(buf)@ + be16_bytes(x),
{
    buf.push((x / 256) as u8);
    buf.push((x % 256) as u8);
    assert(buf@ =~= old(buf)@ + be16_bytes(x));
}

/// Appends the four big-endian bytes of `x` to `buf`.
pub fn push_u32(buf: &mut Vec<u8>, x: u32)
    ensures
        final(buf)@ == old(buf)@ + be32_bytes(x),
{
    buf.push((x / 0x1000000) as u8);
    buf.push(((x / 0x10000) % 256) as u8);
    buf.push(((x / 256) % 256) as u8);
    buf.push((x % 256) as u8);
    assert(buf@ =~= old(buf)@ + be32_bytes(x));
}

/// Reads the sixteen-bit big-endian field at `i`, or reports a truncated
/// buffer where its two bytes do not fit.
pub fn read_u16(b: &[u8], i: usize) -> (r: Result<u16, DecodeError>)
    ensures
        i + 2 <= b@.len() ==> r == Ok::<u16, DecodeError>(be16_at(b@, i as int)),
        i + 2 > b@.len() ==> r == Err::<u16, DecodeError>(DecodeError::TruncatedBuffer),
{
    if b.len() >= 2 && i <= b.len() - 2 {
        let hi = b[i];
        let lo = b[i + 1];
        Ok((hi as u16) * 256 + (lo as u16))
    } else {
        Err(DecodeError::TruncatedBuffer)
    }
}

/// Reads the thirty-two-bit big-endian field at `i`, or reports a truncated
/// buffer where its four bytes do not fit.
pub fn read_u32(b: &[u8], i: usize) -> (r: Result<u32, DecodeError>)
    ensures
        i + 4 <= b@.len() ==> r == Ok::<u32, DecodeError>(be32_at(b@, i as int)),
        i + 4 > b@.len() ==> r == Err::<u32, DecodeError>(DecodeError::TruncatedBuffer),
{
    if b.len() >= 4 && i <= b.len() - 4 {
        let b0 = b[i];
        let b1 = b[i + 1];
        let b2 = b[i + 2];
        let b3 = b[i + 3];
        Ok((b0 as u32) * 0x1000000 + (b1 as u32) * 0x10000 + (b2 as u32) * 256 + (b3 as u32))
    } else {
        Err(DecodeError::TruncatedBuffer)
    }
}

} // verus!
