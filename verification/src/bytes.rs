//! Little-endian integer encodings used by the frame formats.

use vstd::prelude::*;

verus! {

/// The two bytes of `v`, least significant first.
pub open spec fn le16_bytes(v: u16) -> Seq<u8> {
    seq![(v % 256) as u8, (v / 256) as u8]
}

/// The four bytes of `v`, least significant first.
pub open spec fn le32_bytes(v: u32) -> Seq<u8> {
    seq![
        (v % 0x100) as u8,
        (v / 0x100 % 0x100) as u8,
        (v / 0x1_0000 % 0x100) as u8,
        (v / 0x100_0000) as u8,
    ]
}

/// The eight bytes of `v`, least significant first.
pub open spec fn le64_bytes(v: u64) -> Seq<u8> {
    le32_bytes((v % 0x1_0000_0000) as u32) + le32_bytes((v / 0x1_0000_0000) as u32)
}

/// The number whose little-endian encoding is the first two bytes of `b`.
pub open spec fn le16_value(b: Seq<u8>) -> u16 {
    (b[0] + 0x100 * b[1]) as u16
}

/// The number whose little-endian encoding is the first four bytes of `b`.
pub open spec fn le32_value(b: Seq<u8>) -> u32 {
    (b[0] + 0x100 * b[1] + 0x1_0000 * b[2] + 0x100_0000 * b[3]) as u32
}

/// The number whose little-endian encoding is the first eight bytes of `b`.
pub open spec fn le64_value(b: Seq<u8>) -> u64 {
    (le32_value(b) + 0x1_0000_0000 * le32_value(b.subrange(4, 8))) as u64
}

/// Reading back a little-endian `u16` gives the number that was written.
pub proof fn lemma_le16_roundtrip(v: u16)
    ensures
        le16_bytes(v).len() == 2,
        le16_value(le16_bytes(v)) == v,
{
}

/// Reading back a little-endian `u32` gives the number that was written.
pub proof fn lemma_le32_roundtrip(v: u32)
    ensures
        le32_bytes(v).len() == 4,
        le32_value(le32_bytes(v)) == v,
{
}

/// Reading back a little-endian `u64` gives the number that was written.
pub proof fn lemma_le64_roundtrip(v: u64)
    ensures
        le64_bytes(v).len() == 8,
        le64_value(le64_bytes(v)) == v,
{
    let lo = (v % 0x1_0000_0000) as u32;
    let hi = (v / 0x1_0000_0000) as u32;
    lemma_le32_roundtrip(lo);
    lemma_le32_roundtrip(hi);
    assert(le64_bytes(v).subrange(4, 8) =~= le32_bytes(hi));
    assert(le64_bytes(v).subrange(0, 4) =~= le32_bytes(lo));
    assert(le32_value(le64_bytes(v)) == le32_value(le32_bytes(lo)));
}

/// Two bytes read as a little-endian `u16` encode back to the same bytes.
pub proof fn lemma_le16_from_bytes(b: Seq<u8>)
    requires
        b.len() == 2,
    ensures
        le16_bytes(le16_value(b)) == b,
{
    let v = le16_value(b);
    assert(v == b[0] + 0x100 * b[1]);
    assert(v % 256 == b[0] && v / 256 == b[1]) by (nonlinear_arith)
        requires
            v == b[0] + 0x100 * b[1],
            0 <= b[0] < 256,
            0 <= b[1] < 256,
    ;
    assert(le16_bytes(v) =~= b);
}

/// Four bytes read as a little-endian `u32` encode back to the same bytes.
pub proof fn lemma_le32_from_bytes(b: Seq<u8>)
    requires
        b.len() == 4,
    ensures
        le32_bytes(le32_value(b)) == b,
{
    let v = le32_value(b);
    let (b0, b1, b2, b3) = (b[0] as int, b[1] as int, b[2] as int, b[3] as int);
    assert(v == b0 + 0x100 * b1 + 0x1_0000 * b2 + 0x100_0000 * b3);
    assert(v % 0x100 == b0 && v / 0x100 % 0x100 == b1 && v / 0x1_0000 % 0x100 == b2 && v
        / 0x100_0000 == b3) by (nonlinear_arith)
        requires
            v == b0 + 0x100 * b1 + 0x1_0000 * b2 + 0x100_0000 * b3,
            0 <= b0 < 256,
            0 <= b1 < 256,
            0 <= b2 < 256,
            0 <= b3 < 256,
    ;
    assert(le32_bytes(v) =~= b);
}

/// Eight bytes read as a little-endian `u64` encode back to the same bytes.
pub proof fn lemma_le64_from_bytes(b: Seq<u8>)
    requires
        b.len() == 8,
    ensures
        le64_bytes(le64_value(b)) == b,
{
    let lo = le32_value(b);
    let hi = le32_value(b.subrange(4, 8));
    let v = le64_value(b);
    assert(le32_value(b) == le32_value(b.subrange(0, 4)));
    assert(v == lo + 0x1_0000_0000 * hi);
    assert(v % 0x1_0000_0000 == lo && v / 0x1_0000_0000 == hi) by (nonlinear_arith)
        requires
            v == lo + 0x1_0000_0000 * hi,
            0 <= lo < 0x1_0000_0000,
            0 <= hi < 0x1_0000_0000,
    ;
    lemma_le32_from_bytes(b.subrange(0, 4));
    lemma_le32_from_bytes(b.subrange(4, 8));
    assert(le64_bytes(v) =~= b);
}

/// Appends the little-endian encoding of `v`.
pub fn push_u16_le(buf: &mut Vec<u8>, v: u16)
    ensures
        final(buf)@ == old(buf)@ + le16_bytes(v),
{
    buf.push((v % 256) as u8);
    buf.push((v / 256) as u8);
    assert(final(buf)@ =~= old(buf)@ + le16_bytes(v));
}

/// Appends the little-endian encoding of `v`.
pub fn push_u32_le(buf: &mut Vec<u8>, v: u32)
    ensures
        final(buf)@ == old(buf)@ + le32_bytes(v),
{
    buf.push((v % 0x100) as u8);
    buf.push((v / 0x100 % 0x100) as u8);
    buf.push((v / 0x1_0000 % 0x100) as u8);
    buf.push((v / 0x100_0000) as u8);
    assert(final(buf)@ =~= old(buf)@ + le32_bytes(v));
}

/// Appends the little-endian encoding of `v`.
pub fn push_u64_le(buf: &mut Vec<u8>, v: u64)
    ensures
        final(buf)@ == old(buf)@ + le64_bytes(v),
{
    push_u32_le(buf, (v % 0x1_0000_0000) as u32);
    push_u32_le(buf, (v / 0x1_0000_0000) as u32);
    assert(final(buf)@ =~= old(buf)@ + le64_bytes(v));
}

/// Appends all of `src`.
pub fn push_all(buf: &mut Vec<u8>, src: &[u8])
    ensures
        final(buf)@ == old(buf)@ + src@,
{
    let mut i: usize = 0;
    while i < src.len()
        invariant
            i <= src@.len(),
            buf@ == old(buf)@ + src@.subrange(0, i as int),
        decreases src@.len() - i,
    {
        buf.push(src[i]);
        i = i + 1;
        assert(buf@ =~= old(buf)@ + src@.subrange(0, i as int));
    }
    assert(src@.subrange(0, src@.len() as int) =~= src@);
}

/// The little-endian `u16` stored at `b[pos..pos + 2]`.
pub fn read_u16_le(b: &[u8], pos: usize) -> (r: u16)
    requires
        pos + 2 <= b@.len(),
    ensures
        r == le16_value(b@.subrange(pos as int, pos + 2)),
{
    b[pos] as u16 + 0x100 * (b[pos + 1] as u16)
}

/// The little-endian `u32` stored at `b[pos..pos + 4]`.
pub fn read_u32_le(b: &[u8], pos: usize) -> (r: u32)
    requires
        pos + 4 <= b@.len(),
    ensures
        r == le32_value(b@.subrange(pos as int, pos + 4)),
{
    b[pos] as u32 + 0x100 * (b[pos + 1] as u32) + 0x1_0000 * (b[pos + 2] as u32) + 0x100_0000 * (
    b[pos + 3] as u32)
}

/// The little-endian `u64` stored at `b[pos..pos + 8]`.
pub fn read_u64_le(b: &[u8], pos: usize) -> (r: u64)
    requires
        pos + 8 <= b.len(),
    ensures
        r == le64_value(b@.subrange(pos as int, pos + 8)),
{
    let lo = read_u32_le(b, pos);
    let hi = read_u32_le(b, pos + 4);
    assert(b@.subrange(pos as int, pos + 8).subrange(4, 8) =~= b@.subrange(pos + 4, pos + 8));
    lo as u64 + 0x1_0000_0000 * (hi as u64)
}

/// A copy of `b[start..end]`.
pub fn copy_range(b: &[u8], start: usize, end: usize) -> (r: Vec<u8>)
    requires
        start <= end <= b@.len(),
    ensures
        r@ == b@.subrange(start as int, end as int),
{
    let mut r: Vec<u8> = Vec::new();
    let mut i: usize = start;
    while i < end
        invariant
            start <= i <= end <= b@.len(),
            r@ == b@.subrange(start as int, i as int),
        decreases end - i,
    {
        r.push(b[i]);
        i = i + 1;
        assert(r@ =~= b@.subrange(start as int, i as int));
    }
    r
}

} // verus!
