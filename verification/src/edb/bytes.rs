//! Little-endian integer fields inside byte images.

use vstd::prelude::*;

use super::error::Error;

verus! {

/// The `u32` stored little-endian at `off`.
pub open spec fn le_u32(b: Seq<u8>, off: int) -> u32 {
    (b[off] as int + b[off + 1] as int * 0x100 + b[off + 2] as int * 0x1_0000
        + b[off + 3] as int * 0x100_0000) as u32
}

/// The `u64` stored little-endian at `off`.
pub open spec fn le_u64(b: Seq<u8>, off: int) -> u64 {
    (le_u32(b, off) as int + le_u32(b, off + 4) as int * 0x1_0000_0000) as u64
}

/// The four little-endian bytes of `v`.
pub open spec fn u32_le_bytes(v: u32) -> Seq<u8> {
    seq![
        (v % 0x100) as u8,
        ((v / 0x100) % 0x100) as u8,
        ((v / 0x1_0000) % 0x100) as u8,
        (v / 0x100_0000) as u8,
    ]
}

/// The eight little-endian bytes of `v`.
pub open spec fn u64_le_bytes(v: u64) -> Seq<u8> {
    u32_le_bytes((v % 0x1_0000_0000) as u32) + u32_le_bytes((v / 0x1_0000_0000) as u32)
}

/// The four little-endian bytes of `v` in two's complement.
pub open spec fn i32_le_bytes(v: i32) -> Seq<u8> {
    u32_le_bytes(i32_bits(v))
}

/// The two's complement bit pattern of `v`.
pub open spec fn i32_bits(v: i32) -> u32 {
    if v >= 0 { v as u32 } else { (v + 0x1_0000_0000) as u32 }
}

/// The `i32` whose two's complement bit pattern is `u`.
pub open spec fn i32_from_bits(u: u32) -> i32 {
    if u < 0x8000_0000 { u as i32 } else { (u - 0x1_0000_0000) as i32 }
}

pub proof fn lemma_u32_le_roundtrip(v: u32)
    ensures
        u32_le_bytes(v).len() == 4,
        le_u32(u32_le_bytes(v), 0) == v,
{
    let b = u32_le_bytes(v);
    assert(b[0] as int + b[1] as int * 0x100 + b[2] as int * 0x1_0000 + b[3] as int * 0x100_0000
        == v) by (nonlinear_arith)
        requires
            b[0] == (v % 0x100) as u8,
            b[1] == ((v / 0x100) % 0x100) as u8,
            b[2] == ((v / 0x1_0000) % 0x100) as u8,
            b[3] == (v / 0x100_0000) as u8,
    ;
}

pub proof fn lemma_le_u32_bytes(b: Seq<u8>, off: int)
    requires
        0 <= off,
        off + 4 <= b.len(),
    ensures
        u32_le_bytes(le_u32(b, off)) == b.subrange(off, off + 4),
{
    let v = le_u32(b, off);
    let (b0, b1, b2, b3) = (b[off], b[off + 1], b[off + 2], b[off + 3]);
    assert(v == b0 as int + b1 as int * 0x100 + b2 as int * 0x1_0000 + b3 as int * 0x100_0000)
        by (nonlinear_arith)
        requires
            v == (b0 as int + b1 as int * 0x100 + b2 as int * 0x1_0000 + b3 as int * 0x100_0000) as u32,
            b0 < 256, b1 < 256, b2 < 256, b3 < 256,
    ;
    assert((v % 0x100) as u8 == b0 && ((v / 0x100) % 0x100) as u8 == b1
        && ((v / 0x1_0000) % 0x100) as u8 == b2 && (v / 0x100_0000) as u8 == b3)
        by (nonlinear_arith)
        requires
            v == b0 as int + b1 as int * 0x100 + b2 as int * 0x1_0000 + b3 as int * 0x100_0000,
            b0 < 256, b1 < 256, b2 < 256, b3 < 256,
    ;
    assert(u32_le_bytes(v) =~= b.subrange(off, off + 4));
}

pub proof fn lemma_le_u32_at(b: Seq<u8>, o: int, v: u32)
    requires
        0 <= o,
        o + 4 <= b.len(),
        b.subrange(o, o + 4) == u32_le_bytes(v),
    ensures
        le_u32(b, o) == v,
{
    lemma_u32_le_roundtrip(v);
    let w = u32_le_bytes(v);
    assert(b[o] == w[0] && b[o + 1] == w[1] && b[o + 2] == w[2] && b[o + 3] == w[3]) by {
        assert(b.subrange(o, o + 4)[0] == b[o]);
        assert(b.subrange(o, o + 4)[1] == b[o + 1]);
        assert(b.subrange(o, o + 4)[2] == b[o + 2]);
        assert(b.subrange(o, o + 4)[3] == b[o + 3]);
    }
}

pub proof fn lemma_i32_bits_roundtrip(t: i32, u: u32)
    ensures
        i32_from_bits(i32_bits(t)) == t,
        i32_bits(i32_from_bits(u)) == u,
{
}

pub proof fn lemma_u64_split(v: u64)
    ensures
        ((v % 0x1_0000_0000) as u32) as int + ((v / 0x1_0000_0000) as u32) as int * 0x1_0000_0000 == v,
{
}

pub proof fn lemma_u64_bytes_of_le(b: Seq<u8>, o: int)
    requires
        0 <= o,
        o + 8 <= b.len(),
    ensures
        u64_le_bytes(le_u64(b, o)) == b.subrange(o, o + 8),
{
    let lo = le_u32(b, o);
    let hi = le_u32(b, o + 4);
    let v = le_u64(b, o);
    assert(v == lo as int + hi as int * 0x1_0000_0000);
    assert((v % 0x1_0000_0000) as u32 == lo);
    assert((v / 0x1_0000_0000) as u32 == hi);
    lemma_le_u32_bytes(b, o);
    lemma_le_u32_bytes(b, o + 4);
    assert(u64_le_bytes(v) =~= b.subrange(o, o + 8));
}

/// Reads the little-endian `u32` at `offset`, or reports how long the image
/// would have to be.
pub fn read_u32(bytes: &[u8], offset: usize) -> (r: Result<u32, Error>)
    requires
        offset + 4 <= usize::MAX,
    ensures
        offset + 4 <= bytes@.len() ==> r == Ok::<u32, Error>(le_u32(bytes@, offset as int)),
        offset + 4 > bytes@.len() ==> r == Err::<u32, Error>(
            Error::Truncated { expected: (offset + 4) as usize, actual: bytes@.len() as usize },
        ),
{
    if offset > bytes.len() || bytes.len() - offset < 4 {
        return Err(Error::Truncated { expected: offset + 4, actual: bytes.len() });
    }
    let v: u32 = bytes[offset] as u32 + bytes[offset + 1] as u32 * 0x100 + bytes[offset + 2] as u32
        * 0x1_0000 + bytes[offset + 3] as u32 * 0x100_0000;
    Ok(v)
}

/// Reads the little-endian `u64` at `offset`.
pub fn read_u64(bytes: &[u8], offset: usize) -> (r: Result<u64, Error>)
    requires
        offset + 8 <= usize::MAX,
    ensures
        offset + 8 <= bytes@.len() ==> r == Ok::<u64, Error>(le_u64(bytes@, offset as int)),
        offset + 8 > bytes@.len() ==> r == Err::<u64, Error>(
            Error::Truncated { expected: (offset + 8) as usize, actual: bytes@.len() as usize },
        ),
{
    if offset > bytes.len() || bytes.len() - offset < 8 {
        return Err(Error::Truncated { expected: offset + 8, actual: bytes.len() });
    }
    let low = read_u32(bytes, offset);
    let high = read_u32(bytes, offset + 4);
    match (low, high) {
        (Ok(low), Ok(high)) => Ok(low as u64 + high as u64 * 0x1_0000_0000),
        _ => Err(Error::Truncated { expected: offset + 8, actual: bytes.len() }),
    }
}

/// Copies `n` bytes starting at `offset`, or reports how long the image
/// would have to be.
pub fn read_bytes(bytes: &[u8], offset: usize, n: usize) -> (r: Result<Vec<u8>, Error>)
    requires
        offset + n <= usize::MAX,
    ensures
        offset + n <= bytes@.len() ==> (r matches Ok(v) && v@ == bytes@.subrange(
            offset as int,
            offset + n,
        )),
        offset + n > bytes@.len() ==> r == Err::<Vec<u8>, Error>(
            Error::Truncated { expected: (offset + n) as usize, actual: bytes@.len() as usize },
        ),
{
    if offset > bytes.len() || bytes.len() - offset < n {
        return Err(Error::Truncated { expected: offset + n, actual: bytes.len() });
    }
    let mut out: Vec<u8> = Vec::with_capacity(n);
    let mut i: usize = 0;
    while i < n
        invariant
            i <= n,
            offset + n <= bytes@.len(),
            offset + n <= usize::MAX,
            out@ == bytes@.subrange(offset as int, offset + i),
        decreases n - i,
    {
        out.push(bytes[offset + i]);
        i = i + 1;
    }
    Ok(out)
}

/// Appends the little-endian bytes of `v`.
pub fn push_u32(out: &mut Vec<u8>, v: u32)
    ensures
        final(out)@ == old(out)@ + u32_le_bytes(v),
{
    out.push((v % 0x100) as u8);
    out.push(((v / 0x100) % 0x100) as u8);
    out.push(((v / 0x1_0000) % 0x100) as u8);
    out.push((v / 0x100_0000) as u8);
    assert(final(out)@ =~= old(out)@ + u32_le_bytes(v));
}

/// Appends the little-endian bytes of `v`.
pub fn push_u64(out: &mut Vec<u8>, v: u64)
    ensures
        final(out)@ == old(out)@ + u64_le_bytes(v),
{
    let ghost start = out@;
    push_u32(out, (v % 0x1_0000_0000) as u32);
    push_u32(out, (v / 0x1_0000_0000) as u32);
    assert(out@ =~= start + u64_le_bytes(v));
}

/// Appends every byte of `src`.
pub fn push_all(out: &mut Vec<u8>, src: &[u8])
    ensures
        final(out)@ == old(out)@ + src@,
{
    let ghost start = out@;
    let mut i: usize = 0;
    while i < src.len()
        invariant
            i <= src@.len(),
            out@ == start + src@.subrange(0, i as int),
        decreases src@.len() - i,
    {
        out.push(src[i]);
        i = i + 1;
        assert(out@ =~= start + src@.subrange(0, i as int));
    }
    assert(src@.subrange(0, src@.len() as int) =~= src@);
}

} // verus!
