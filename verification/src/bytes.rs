//! Little-endian framing of fixed-width integers.
use vstd::prelude::*;

verus! {

/// The two little-endian bytes of `x`.
pub open spec fn le16(x: u16) -> Seq<u8> {
    seq![(x & 0xff) as u8, ((x >> 8u16) & 0xff) as u8]
}

/// The four little-endian bytes of `x`.
pub open spec fn le32(x: u32) -> Seq<u8> {
    seq![
        (x & 0xff) as u8,
        ((x >> 8u32) & 0xff) as u8,
        ((x >> 16u32) & 0xff) as u8,
        ((x >> 24u32) & 0xff) as u8,
    ]
}

/// The eight little-endian bytes of `x`.
pub open spec fn le64(x: u64) -> Seq<u8> {
    seq![
        (x & 0xff) as u8,
        ((x >> 8u64) & 0xff) as u8,
        ((x >> 16u64) & 0xff) as u8,
        ((x >> 24u64) & 0xff) as u8,
        ((x >> 32u64) & 0xff) as u8,
        ((x >> 40u64) & 0xff) as u8,
        ((x >> 48u64) & 0xff) as u8,
        ((x >> 56u64) & 0xff) as u8,
    ]
}

/// The `u16` whose little-endian bytes start at `s[at]`.
pub open spec fn read16(s: Seq<u8>, at: int) -> u16 {
    (s[at] as u16) | ((s[at + 1] as u16) << 8u16)
}

/// The `u32` whose little-endian bytes start at `s[at]`.
pub open spec fn read32(s: Seq<u8>, at: int) -> u32 {
    (s[at] as u32) | ((s[at + 1] as u32) << 8u32) | ((s[at + 2] as u32) << 16u32) | ((s[at
        + 3] as u32) << 24u32)
}

/// The `u64` whose little-endian bytes start at `s[at]`.
pub open spec fn read64(s: Seq<u8>, at: int) -> u64 {
    (s[at] as u64) | ((s[at + 1] as u64) << 8u64) | ((s[at + 2] as u64) << 16u64) | ((s[at
        + 3] as u64) << 24u64) | ((s[at + 4] as u64) << 32u64) | ((s[at + 5] as u64) << 40u64)
        | ((s[at + 6] as u64) << 48u64) | ((s[at + 7] as u64) << 56u64)
}

proof fn lemma_join16(b0: u8, b1: u8, x: u16)
    requires
        b0 == (x & 0xff) as u8,
        b1 == ((x >> 8u16) & 0xff) as u8,
    ensures
        ((b0 as u16) | ((b1 as u16) << 8u16)) == x,
{
    assert(b0 == (x & 0xff) as u8 && b1 == ((x >> 8u16) & 0xff) as u8 ==> ((b0 as u16) | ((
    b1 as u16) << 8u16)) == x) by (bit_vector);
}

proof fn lemma_join32(b0: u8, b1: u8, b2: u8, b3: u8, x: u32)
    requires
        b0 == (x & 0xff) as u8,
        b1 == ((x >> 8u32) & 0xff) as u8,
        b2 == ((x >> 16u32) & 0xff) as u8,
        b3 == ((x >> 24u32) & 0xff) as u8,
    ensures
        ((b0 as u32) | ((b1 as u32) << 8u32) | ((b2 as u32) << 16u32) | ((b3 as u32) << 24u32))
            == x,
{
    assert(b0 == (x & 0xff) as u8 && b1 == ((x >> 8u32) & 0xff) as u8 && b2 == ((x >> 16u32)
        & 0xff) as u8 && b3 == ((x >> 24u32) & 0xff) as u8 ==> ((b0 as u32) | ((b1 as u32)
        << 8u32) | ((b2 as u32) << 16u32) | ((b3 as u32) << 24u32)) == x) by (bit_vector);
}

proof fn lemma_join64(b0: u8, b1: u8, b2: u8, b3: u8, b4: u8, b5: u8, b6: u8, b7: u8, x: u64)
    requires
        b0 == (x & 0xff) as u8,
        b1 == ((x >> 8u64) & 0xff) as u8,
        b2 == ((x >> 16u64) & 0xff) as u8,
        b3 == ((x >> 24u64) & 0xff) as u8,
        b4 == ((x >> 32u64) & 0xff) as u8,
        b5 == ((x >> 40u64) & 0xff) as u8,
        b6 == ((x >> 48u64) & 0xff) as u8,
        b7 == ((x >> 56u64) & 0xff) as u8,
    ensures
        ((b0 as u64) | ((b1 as u64) << 8u64) | ((b2 as u64) << 16u64) | ((b3 as u64) << 24u64)
            | ((b4 as u64) << 32u64) | ((b5 as u64) << 40u64) | ((b6 as u64) << 48u64) | ((
        b7 as u64) << 56u64)) == x,
{
    assert(b0 == (x & 0xff) as u8 && b1 == ((x >> 8u64) & 0xff) as u8 && b2 == ((x >> 16u64)
        & 0xff) as u8 && b3 == ((x >> 24u64) & 0xff) as u8 && b4 == ((x >> 32u64) & 0xff) as u8
        && b5 == ((x >> 40u64) & 0xff) as u8 && b6 == ((x >> 48u64) & 0xff) as u8 && b7 == ((x
        >> 56u64) & 0xff) as u8 ==> ((b0 as u64) | ((b1 as u64) << 8u64) | ((b2 as u64) << 16u64)
        | ((b3 as u64) << 24u64) | ((b4 as u64) << 32u64) | ((b5 as u64) << 40u64) | ((b6 as u64)
        << 48u64) | ((b7 as u64) << 56u64)) == x) by (bit_vector);
}

/// Reading back the bytes written for a `u16` gives the `u16`.
pub proof fn lemma_read16_le16(s: Seq<u8>, at: int, x: u16)
    requires
        0 <= at,
        at + 2 <= s.len(),
        s.subrange(at, at + 2) == le16(x),
    ensures
        read16(s, at) == x,
{
    assert(s[at] == s.subrange(at, at + 2)[0]);
    assert(s[at + 1] == s.subrange(at, at + 2)[1]);
    lemma_join16(s[at], s[at + 1], x);
}

/// Reading back the bytes written for a `u32` gives the `u32`.
pub proof fn lemma_read32_le32(s: Seq<u8>, at: int, x: u32)
    requires
        0 <= at,
        at + 4 <= s.len(),
        s.subrange(at, at + 4) == le32(x),
    ensures
        read32(s, at) == x,
{
    let w = s.subrange(at, at + 4);
    assert(s[at] == w[0] && s[at + 1] == w[1] && s[at + 2] == w[2] && s[at + 3] == w[3]);
    lemma_join32(s[at], s[at + 1], s[at + 2], s[at + 3], x);
}

/// Reading back the bytes written for a `u64` gives the `u64`.
pub proof fn lemma_read64_le64(s: Seq<u8>, at: int, x: u64)
    requires
        0 <= at,
        at + 8 <= s.len(),
        s.subrange(at, at + 8) == le64(x),
    ensures
        read64(s, at) == x,
{
    let w = s.subrange(at, at + 8);
    assert(s[at] == w[0] && s[at + 1] == w[1] && s[at + 2] == w[2] && s[at + 3] == w[3]);
    assert(s[at + 4] == w[4] && s[at + 5] == w[5] && s[at + 6] == w[6] && s[at + 7] == w[7]);
    lemma_join64(s[at], s[at + 1], s[at + 2], s[at + 3], s[at + 4], s[at + 5], s[at + 6], s[at
        + 7], x);
}

/// Appends the little-endian bytes of `x`.
pub fn push_le16(out: &mut Vec<u8>, x: u16)
    ensures
        final(out)@ == old(out)@ + le16(x),
{
    out.push((x & 0xff) as u8);
    out.push(((x >> 8u16) & 0xff) as u8);
    assert(final(out)@ =~= old(out)@ + le16(x));
}

/// Appends the little-endian bytes of `x`.
pub fn push_le32(out: &mut Vec<u8>, x: u32)
    ensures
        final(out)@ == old(out)@ + le32(x),
{
    out.push((x & 0xff) as u8);
    out.push(((x >> 8u32) & 0xff) as u8);
    out.push(((x >> 16u32) & 0xff) as u8);
    out.push(((x >> 24u32) & 0xff) as u8);
    assert(final(out)@ =~= old(out)@ + le32(x));
}

/// Appends the little-endian bytes of `x`.
pub fn push_le64(out: &mut Vec<u8>, x: u64)
    ensures
        final(out)@ == old(out)@ + le64(x),
{
    out.push((x & 0xff) as u8);
    out.push(((x >> 8u64) & 0xff) as u8);
    out.push(((x >> 16u64) & 0xff) as u8);
    out.push(((x >> 24u64) & 0xff) as u8);
    out.push(((x >> 32u64) & 0xff) as u8);
    out.push(((x >> 40u64) & 0xff) as u8);
    out.push(((x >> 48u64) & 0xff) as u8);
    out.push(((x >> 56u64) & 0xff) as u8);
    assert(final(out)@ =~= old(out)@ + le64(x));
}

/// The `u16` whose little-endian bytes start at `data[at]`.
pub fn get_le16(data: &[u8], at: usize) -> (x: u16)
    requires
        at + 2 <= data@.len(),
    ensures
        x == read16(data@, at as int),
{
    (data[at] as u16) | ((data[at + 1] as u16) << 8u16)
}

/// The `u32` whose little-endian bytes start at `data[at]`.
pub fn get_le32(data: &[u8], at: usize) -> (x: u32)
    requires
        at + 4 <= data@.len(),
    ensures
        x == read32(data@, at as int),
{
    (data[at] as u32) | ((data[at + 1] as u32) << 8u32) | ((data[at + 2] as u32) << 16u32) | ((
    data[at + 3] as u32) << 24u32)
}

/// The `u64` whose little-endian bytes start at `data[at]`.
pub fn get_le64(data: &[u8], at: usize) -> (x: u64)
    requires
        at + 8 <= data@.len(),
    ensures
        x == read64(data@, at as int),
{
    (data[at] as u64) | ((data[at + 1] as u64) << 8u64) | ((data[at + 2] as u64) << 16u64) | ((
    data[at + 3] as u64) << 24u64) | ((data[at + 4] as u64) << 32u64) | ((data[at + 5] as u64)
        << 40u64) | ((data[at + 6] as u64) << 48u64) | ((data[at + 7] as u64) << 56u64)
}

} // verus!
