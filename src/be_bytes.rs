//! Big-endian integers on the wire.

use vstd::prelude::*;

verus! {

/// The four big-endian bytes of `x`.
pub open spec fn be32(x: u32) -> Seq<u8> {
    seq![(x >> 24u32) as u8, (x >> 16u32) as u8, (x >> 8u32) as u8, x as u8]
}

/// The integer whose big-endian bytes are `b0 b1 b2 b3`.
pub open spec fn u32_from_be(b0: u8, b1: u8, b2: u8, b3: u8) -> u32 {
    ((b0 as u32) << 24u32) | ((b1 as u32) << 16u32) | ((b2 as u32) << 8u32) | (b3 as u32)
}

/// The integer held by the four bytes of `s` starting at `i`.
pub open spec fn u32_at(s: Seq<u8>, i: int) -> u32 {
    u32_from_be(s[i], s[i + 1], s[i + 2], s[i + 3])
}

/// The eight big-endian bytes of `x`.
pub open spec fn be64(x: u64) -> Seq<u8> {
    seq![
        (x >> 56u64) as u8,
        (x >> 48u64) as u8,
        (x >> 40u64) as u8,
        (x >> 32u64) as u8,
        (x >> 24u64) as u8,
        (x >> 16u64) as u8,
        (x >> 8u64) as u8,
        x as u8,
    ]
}

/// The integer held by the eight bytes of `s` starting at `i`.
pub open spec fn u64_at(s: Seq<u8>, i: int) -> u64 {
    ((s[i] as u64) << 56u64) | ((s[i + 1] as u64) << 48u64) | ((s[i + 2] as u64) << 40u64) | ((s[i
        + 3] as u64) << 32u64) | ((s[i + 4] as u64) << 24u64) | ((s[i + 5] as u64) << 16u64) | ((s[i
        + 6] as u64) << 8u64) | (s[i + 7] as u64)
}

/// The sixteen big-endian bytes of `x`.
pub open spec fn be128(x: u128) -> Seq<u8> {
    be64((x >> 64u128) as u64) + be64(x as u64)
}

/// The integer held by the sixteen bytes of `s` starting at `i`.
pub open spec fn u128_at(s: Seq<u8>, i: int) -> u128 {
    ((u64_at(s, i) as u128) << 64u128) | (u64_at(s, i + 8) as u128)
}

pub proof fn lemma_be32_round_trip(x: u32)
    ensures
        u32_at(be32(x), 0) == x,
{
    assert(((((x >> 24u32) as u8) as u32) << 24u32) | ((((x >> 16u32) as u8) as u32) << 16u32) | (
    (((x >> 8u32) as u8) as u32) << 8u32) | ((x as u8) as u32) == x) by (bit_vector);
}

pub proof fn lemma_be64_round_trip(x: u64)
    ensures
        u64_at(be64(x), 0) == x,
{
    assert(((((x >> 56u64) as u8) as u64) << 56u64) | ((((x >> 48u64) as u8) as u64) << 48u64) | (
    (((x >> 40u64) as u8) as u64) << 40u64) | ((((x >> 32u64) as u8) as u64) << 32u64) | ((((x
        >> 24u64) as u8) as u64) << 24u64) | ((((x >> 16u64) as u8) as u64) << 16u64) | ((((x
        >> 8u64) as u8) as u64) << 8u64) | ((x as u8) as u64) == x) by (bit_vector);
}

pub proof fn lemma_be128_round_trip(x: u128)
    ensures
        u128_at(be128(x), 0) == x,
{
    let hi = (x >> 64u128) as u64;
    let lo = x as u64;
    lemma_be64_round_trip(hi);
    lemma_be64_round_trip(lo);
    let s = be128(x);
    assert(s.subrange(0, 8) =~= be64(hi));
    assert(s.subrange(8, 16) =~= be64(lo));
    assert(u64_at(s, 0) == u64_at(be64(hi), 0));
    assert(u64_at(s, 8) == u64_at(be64(lo), 0));
    assert((((x >> 64u128) as u64) as u128) << 64u128 | ((x as u64) as u128) == x) by (bit_vector);
}

/// Appends the big-endian bytes of `x`.
pub fn put_u32(buf: &mut Vec<u8>, x: u32)
    ensures
        final(buf)@ == old(buf)@ + be32(x),
{
    buf.push((x >> 24u32) as u8);
    buf.push((x >> 16u32) as u8);
    buf.push((x >> 8u32) as u8);
    buf.push(x as u8);
    assert(buf@ =~= old(buf)@ + be32(x));
}

/// Appends the big-endian bytes of `x`.
pub fn put_u64(buf: &mut Vec<u8>, x: u64)
    ensures
        final(buf)@ == old(buf)@ + be64(x),
{
    buf.push((x >> 56u64) as u8);
    buf.push((x >> 48u64) as u8);
    buf.push((x >> 40u64) as u8);
    buf.push((x >> 32u64) as u8);
    buf.push((x >> 24u64) as u8);
    buf.push((x >> 16u64) as u8);
    buf.push((x >> 8u64) as u8);
    buf.push(x as u8);
    assert(buf@ =~= old(buf)@ + be64(x));
}

/// Appends the big-endian bytes of `x`.
pub fn put_u128(buf: &mut Vec<u8>, x: u128)
    ensures
        final(buf)@ == old(buf)@ + be128(x),
{
    put_u64(buf, (x >> 64u128) as u64);
    put_u64(buf, x as u64);
    assert(buf@ =~= old(buf)@ + be128(x));
}

/// Reads the four bytes at `pos` as a big-endian integer.
pub fn get_u32(buf: &[u8], pos: usize) -> (r: u32)
    requires
        pos + 4 <= buf@.len(),
    ensures
        r == u32_at(buf@, pos as int),
{
    ((buf[pos] as u32) << 24u32) | ((buf[pos + 1] as u32) << 16u32) | ((buf[pos + 2] as u32)
        << 8u32) | (buf[pos + 3] as u32)
}

/// Reads the eight bytes at `pos` as a big-endian integer.
pub fn get_u64(buf: &[u8], pos: usize) -> (r: u64)
    requires
        pos + 8 <= buf@.len(),
    ensures
        r == u64_at(buf@, pos as int),
{
    ((buf[pos] as u64) << 56u64) | ((buf[pos + 1] as u64) << 48u64) | ((buf[pos + 2] as u64)
        << 40u64) | ((buf[pos + 3] as u64) << 32u64) | ((buf[pos + 4] as u64) << 24u64) | ((buf[pos
        + 5] as u64) << 16u64) | ((buf[pos + 6] as u64) << 8u64) | (buf[pos + 7] as u64)
}

/// Reads the sixteen bytes at `pos` as a big-endian integer.
pub fn get_u128(buf: &[u8], pos: usize) -> (r: u128)
    requires
        pos + 16 <= buf@.len(),
    ensures
        r == u128_at(buf@, pos as int),
{
    let n = buf.len();
    assert(pos + 8 <= n);
    let hi = get_u64(buf, pos);
    let lo = get_u64(buf, pos + 8);
    ((hi as u128) << 64u128) | (lo as u128)
}

/// Appends every byte of `src`.
pub fn put_bytes(buf: &mut Vec<u8>, src: &[u8])
    ensures
        final(buf)@ == old(buf)@ + src@,
{
    let mut i: usize = 0;
    while i < src.len()
        invariant
            0 <= i <= src@.len(),
            buf@ == old(buf)@ + src@.subrange(0, i as int),
        decreases src@.len() - i,
    {
        buf.push(src[i]);
        i = i + 1;
        assert(buf@ =~= old(buf)@ + src@.subrange(0, i as int));
    }
    assert(src@.subrange(0, src@.len() as int) =~= src@);
}

/// A fresh vector holding `buf[start..end]`.
pub fn copy_range(buf: &[u8], start: usize, end: usize) -> (r: Vec<u8>)
    requires
        start <= end <= buf@.len(),
    ensures
        r@ == buf@.subrange(start as int, end as int),
{
    let mut r: Vec<u8> = Vec::new();
    put_bytes(&mut r, &buf[start..end]);
    assert(r@ =~= buf@.subrange(start as int, end as int));
    r
}

} // verus!
