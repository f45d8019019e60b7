//! Big-endian integer encodings shared by the wire formats of the crate.
use vstd::prelude::*;

verus! {

/// The two big-endian bytes of `x`.
pub open spec fn be16(x: u16) -> Seq<u8> {
    seq![(x >> 8u16) as u8, (x & 0xffu16) as u8]
}

/// The four big-endian bytes of `x`.
pub open spec fn be32(x: u32) -> Seq<u8> {
    seq![
        (x >> 24u32) as u8,
        ((x >> 16u32) & 0xffu32) as u8,
        ((x >> 8u32) & 0xffu32) as u8,
        (x & 0xffu32) as u8,
    ]
}

/// The eight big-endian bytes of `x`.
pub open spec fn be64(x: u64) -> Seq<u8> {
    seq![
        (x >> 56u64) as u8,
        ((x >> 48u64) & 0xffu64) as u8,
        ((x >> 40u64) & 0xffu64) as u8,
        ((x >> 32u64) & 0xffu64) as u8,
        ((x >> 24u64) & 0xffu64) as u8,
        ((x >> 16u64) & 0xffu64) as u8,
        ((x >> 8u64) & 0xffu64) as u8,
        (x & 0xffu64) as u8,
    ]
}

/// The big-endian `u16` stored at `s[i..i + 2]`.
pub open spec fn u16_at(s: Seq<u8>, i: int) -> u16 {
    ((s[i] as u16) << 8u16) | (s[i + 1] as u16)
}

/// The big-endian `u32` stored at `s[i..i + 4]`.
pub open spec fn u32_at(s: Seq<u8>, i: int) -> u32 {
    ((s[i] as u32) << 24u32) | ((s[i + 1] as u32) << 16u32) | ((s[i + 2] as u32) << 8u32) | (
    s[i + 3] as u32)
}

/// The big-endian `u64` stored at `s[i..i + 8]`.
pub open spec fn u64_at(s: Seq<u8>, i: int) -> u64 {
    ((s[i] as u64) << 56u64) | ((s[i + 1] as u64) << 48u64) | ((s[i + 2] as u64) << 40u64) | ((
    s[i + 3] as u64) << 32u64) | ((s[i + 4] as u64) << 24u64) | ((s[i + 5] as u64) << 16u64) | ((
    s[i + 6] as u64) << 8u64) | (s[i + 7] as u64)
}

/// Decoding a big-endian `u16` gives back the encoded value.
pub proof fn lemma_be16_roundtrip(x: u16, rest: Seq<u8>, pre: Seq<u8>)
    ensures
        u16_at(pre + be16(x) + rest, pre.len() as int) == x,
{
    let s = pre + be16(x) + rest;
    let i = pre.len() as int;
    assert(s[i] == (x >> 8u16) as u8);
    assert(s[i + 1] == (x & 0xffu16) as u8);
    assert((((x >> 8u16) as u8 as u16) << 8u16) | ((x & 0xffu16) as u8 as u16) == x)
        by (bit_vector);
}

/// Decoding a big-endian `u32` gives back the encoded value.
pub proof fn lemma_be32_roundtrip(x: u32, rest: Seq<u8>, pre: Seq<u8>)
    ensures
        u32_at(pre + be32(x) + rest, pre.len() as int) == x,
{
    let s = pre + be32(x) + rest;
    let i = pre.len() as int;
    assert(s[i] == (x >> 24u32) as u8);
    assert(s[i + 1] == ((x >> 16u32) & 0xffu32) as u8);
    assert(s[i + 2] == ((x >> 8u32) & 0xffu32) as u8);
    assert(s[i + 3] == (x & 0xffu32) as u8);
    assert((((x >> 24u32) as u8 as u32) << 24u32) | ((((x >> 16u32) & 0xffu32) as u8 as u32)
        << 16u32) | ((((x >> 8u32) & 0xffu32) as u8 as u32) << 8u32) | ((x & 0xffu32) as u8 as u32)
        == x) by (bit_vector);
}

/// Decoding a big-endian `u64` gives back the encoded value.
pub proof fn lemma_be64_roundtrip(x: u64, rest: Seq<u8>, pre: Seq<u8>)
    ensures
        u64_at(pre + be64(x) + rest, pre.len() as int) == x,
{
    let s = pre + be64(x) + rest;
    let i = pre.len() as int;
    assert(s[i] == (x >> 56u64) as u8);
    assert(s[i + 1] == ((x >> 48u64) & 0xffu64) as u8);
    assert(s[i + 2] == ((x >> 40u64) & 0xffu64) as u8);
    assert(s[i + 3] == ((x >> 32u64) & 0xffu64) as u8);
    assert(s[i + 4] == ((x >> 24u64) & 0xffu64) as u8);
    assert(s[i + 5] == ((x >> 16u64) & 0xffu64) as u8);
    assert(s[i + 6] == ((x >> 8u64) & 0xffu64) as u8);
    assert(s[i + 7] == (x & 0xffu64) as u8);
    assert((((x >> 56u64) as u8 as u64) << 56u64) | ((((x >> 48u64) & 0xffu64) as u8 as u64)
        << 48u64) | ((((x >> 40u64) & 0xffu64) as u8 as u64) << 40u64) | ((((x >> 32u64)
        & 0xffu64) as u8 as u64) << 32u64) | ((((x >> 24u64) & 0xffu64) as u8 as u64) << 24u64)
        | ((((x >> 16u64) & 0xffu64) as u8 as u64) << 16u64) | ((((x >> 8u64) & 0xffu64) as u8
        as u64) << 8u64) | ((x & 0xffu64) as u8 as u64) == x) by (bit_vector);
}

/// Appends the big-endian bytes of `x`.
pub fn push_be16(buf: &mut Vec<u8>, x: u16)
    ensures
        final(buf)@ == old(buf)@ + be16(x),
{
    buf.push((x >> 8u16) as u8);
    buf.push((x & 0xffu16) as u8);
    assert(final(buf)@ =~= old(buf)@ + be16(x));
}

/// Appends the big-endian bytes of `x`.
pub fn push_be32(buf: &mut Vec<u8>, x: u32)
    ensures
        final(buf)@ == old(buf)@ + be32(x),
{
    buf.push((x >> 24u32) as u8);
    buf.push(((x >> 16u32) & 0xffu32) as u8);
    buf.push(((x >> 8u32) & 0xffu32) as u8);
    buf.push((x & 0xffu32) as u8);
    assert(final(buf)@ =~= old(buf)@ + be32(x));
}

/// Appends the big-endian bytes of `x`.
pub fn push_be64(buf: &mut Vec<u8>, x: u64)
    ensures
        final(buf)@ == old(buf)@ + be64(x),
{
    buf.push((x >> 56u64) as u8);
    buf.push(((x >> 48u64) & 0xffu64) as u8);
    buf.push(((x >> 40u64) & 0xffu64) as u8);
    buf.push(((x >> 32u64) & 0xffu64) as u8);
    buf.push(((x >> 24u64) & 0xffu64) as u8);
    buf.push(((x >> 16u64) & 0xffu64) as u8);
    buf.push(((x >> 8u64) & 0xffu64) as u8);
    buf.push((x & 0xffu64) as u8);
    assert(final(buf)@ =~= old(buf)@ + be64(x));
}

/// Appends every byte of `src`.
pub fn push_bytes(buf: &mut Vec<u8>, src: &[u8])
    ensures
        final(buf)@ == old(buf)@ + src@,
{
    let n = src.len();
    let mut i: usize = 0;
    while i < n
        invariant
            n == src@.len(),
            i <= n,
            buf@ == old(buf)@ + src@.subrange(0, i as int),
        decreases n - i,
    {
        buf.push(src[i]);
        i = i + 1;
        assert(buf@ =~= old(buf)@ + src@.subrange(0, i as int));
    }
    assert(src@.subrange(0, n as int) =~= src@);
}

/// A copy of `src[from..to]`.
pub fn copy_range(src: &[u8], from: usize, to: usize) -> (out: Vec<u8>)
    requires
        from <= to <= src@.len(),
    ensures
        out@ == src@.subrange(from as int, to as int),
{
    let mut out: Vec<u8> = Vec::new();
    let mut i: usize = from;
    while i < to
        invariant
            from <= i <= to <= src@.len(),
            out@ == src@.subrange(from as int, i as int),
        decreases to - i,
    {
        out.push(src[i]);
        i = i + 1;
        assert(out@ =~= src@.subrange(from as int, i as int));
    }
    out
}

/// Reads the big-endian `u16` at `s[i..i + 2]`.
pub fn read_u16(s: &[u8], i: usize) -> (r: u16)
    requires
        i + 2 <= s@.len(),
    ensures
        r == u16_at(s@, i as int),
{
    ((s[i] as u16) << 8u16) | (s[i + 1] as u16)
}

/// Reads the big-endian `u32` at `s[i..i + 4]`.
pub fn read_u32(s: &[u8], i: usize) -> (r: u32)
    requires
        i + 4 <= s@.len(),
    ensures
        r == u32_at(s@, i as int),
{
    ((s[i] as u32) << 24u32) | ((s[i + 1] as u32) << 16u32) | ((s[i + 2] as u32) << 8u32) | (s[i
        + 3] as u32)
}

/// Reads the big-endian `u64` at `s[i..i + 8]`.
pub fn read_u64(s: &[u8], i: usize) -> (r: u64)
    requires
        i + 8 <= s@.len(),
    ensures
        r == u64_at(s@, i as int),
{
    ((s[i] as u64) << 56u64) | ((s[i + 1] as u64) << 48u64) | ((s[i + 2] as u64) << 40u64) | ((s[i
        + 3] as u64) << 32u64) | ((s[i + 4] as u64) << 24u64) | ((s[i + 5] as u64) << 16u64) | ((s[i
        + 6] as u64) << 8u64) | (s[i + 7] as u64)
}

} // verus!
