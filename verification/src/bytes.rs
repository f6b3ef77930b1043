//! Little-endian byte building: spec-level byte sequences for the
//! fixed-width integers of the file format, and exec builders that
//! append exactly those bytes to a growing buffer.

use vstd::prelude::*;

verus! {

/// The four little-endian bytes of a non-negative integer below 2^32.
pub open spec fn le4(n: int) -> Seq<u8> {
    seq![
        (n % 256) as u8,
        ((n / 256) % 256) as u8,
        ((n / 65536) % 256) as u8,
        ((n / 16777216) % 256) as u8,
    ]
}

/// The two little-endian bytes of a non-negative integer below 2^16.
pub open spec fn le2(n: int) -> Seq<u8> {
    seq![(n % 256) as u8, ((n / 256) % 256) as u8]
}

pub open spec fn u32_le(v: u32) -> Seq<u8> {
    le4(v as int)
}

pub open spec fn u16_le(v: u16) -> Seq<u8> {
    le2(v as int)
}

/// The value a signed 32-bit integer encodes as, two's complement.
pub open spec fn i32_as_u32(v: i32) -> int {
    if v >= 0 {
        v as int
    } else {
        v + 0x1_0000_0000
    }
}

pub open spec fn i32_le(v: i32) -> Seq<u8> {
    le4(i32_as_u32(v))
}

/// The value a signed 16-bit integer encodes as, two's complement.
pub open spec fn i16_as_u16(v: i16) -> int {
    if v >= 0 {
        v as int
    } else {
        v + 0x1_0000
    }
}

pub open spec fn i16_le(v: i16) -> Seq<u8> {
    le2(i16_as_u16(v))
}

/// `n` copies of the byte `b`.
pub open spec fn byte_run(b: u8, n: nat) -> Seq<u8> {
    Seq::new(n, |i: int| b)
}

/// Appends one byte.
pub fn push_byte(buf: &mut Vec<u8>, b: u8)
    ensures
        final(buf)@ == old(buf)@.push(b),
{
    buf.push(b);
}

/// Appends the two little-endian bytes of `v`.
pub fn push_u16_le(buf: &mut Vec<u8>, v: u16)
    ensures
        final(buf)@ == old(buf)@ + u16_le(v),
{
    buf.push((v % 256) as u8);
    buf.push((v / 256) as u8);
    proof {
        assert(v / 256 < 256) by (nonlinear_arith);
        assert(buf@ =~= old(buf)@ + u16_le(v));
    }
}

/// Appends the four little-endian bytes of `v`.
pub fn push_u32_le(buf: &mut Vec<u8>, v: u32)
    ensures
        final(buf)@ == old(buf)@ + u32_le(v),
{
    buf.push((v % 256) as u8);
    buf.push((v / 256 % 256) as u8);
    buf.push((v / 65536 % 256) as u8);
    buf.push((v / 16777216) as u8);
    proof {
        assert(v / 16777216 < 256) by (nonlinear_arith);
        assert(buf@ =~= old(buf)@ + u32_le(v));
    }
}

/// Appends the four little-endian bytes of `v`, two's complement.
pub fn push_i32_le(buf: &mut Vec<u8>, v: i32)
    ensures
        final(buf)@ == old(buf)@ + i32_le(v),
{
    let w: u32 = if v >= 0 {
        v as u32
    } else {
        ((v as i64) + 0x1_0000_0000) as u32
    };
    assert(w as int == i32_as_u32(v));
    push_u32_le(buf, w);
}

/// Appends the two little-endian bytes of `v`, two's complement.
pub fn push_i16_le(buf: &mut Vec<u8>, v: i16)
    ensures
        final(buf)@ == old(buf)@ + i16_le(v),
{
    let w: u16 = if v >= 0 {
        v as u16
    } else {
        ((v as i32) + 0x1_0000) as u16
    };
    assert(w as int == i16_as_u16(v));
    push_u16_le(buf, w);
}

/// Appends `n` copies of the byte `b`.
pub fn push_byte_run(buf: &mut Vec<u8>, b: u8, n: usize)
    ensures
        final(buf)@ == old(buf)@ + byte_run(b, n as nat),
{
    let mut i: usize = 0;
    while i < n
        invariant
            i <= n,
            buf@ == old(buf)@ + byte_run(b, i as nat),
        decreases n - i,
    {
        buf.push(b);
        assert(buf@ =~= old(buf)@ + byte_run(b, (i + 1) as nat));
        i = i + 1;
    }
}

/// Appends every byte of `src`, in order.
pub fn push_bytes(buf: &mut Vec<u8>, src: &Vec<u8>)
    ensures
        final(buf)@ == old(buf)@ + src@,
{
    let mut i: usize = 0;
    while i < src.len()
        invariant
            i <= src.len(),
            buf@ == old(buf)@ + src@.take(i as int),
        decreases src.len() - i,
    {
        buf.push(src[i]);
        assert(buf@ =~= old(buf)@ + src@.take(i + 1 as int));
        i = i + 1;
    }
    assert(src@.take(src@.len() as int) =~= src@);
}

} // verus!
