//! Big-endian integer codecs and byte-vector helpers shared by the on-disk
//! formats.

use vstd::prelude::*;

verus! {

/// The value of eight big-endian bytes.
pub open spec fn be8(b0: u8, b1: u8, b2: u8, b3: u8, b4: u8, b5: u8, b6: u8, b7: u8) -> u64 {
    (b0 as u64) << 56u64 | (b1 as u64) << 48u64 | (b2 as u64) << 40u64 | (b3 as u64) << 32u64
        | (b4 as u64) << 24u64 | (b5 as u64) << 16u64 | (b6 as u64) << 8u64 | (b7 as u64)
}

/// The value of four big-endian bytes.
pub open spec fn be4(b0: u8, b1: u8, b2: u8, b3: u8) -> u32 {
    (b0 as u32) << 24u32 | (b1 as u32) << 16u32 | (b2 as u32) << 8u32 | (b3 as u32)
}

/// The value of two big-endian bytes.
pub open spec fn be2(b0: u8, b1: u8) -> u16 {
    (b0 as u16) << 8u16 | (b1 as u16)
}

/// The `u64` whose big-endian form starts `s`.
pub open spec fn u64_from_be(s: Seq<u8>) -> u64 {
    be8(s[0], s[1], s[2], s[3], s[4], s[5], s[6], s[7])
}

/// The `u32` whose big-endian form starts `s`.
pub open spec fn u32_from_be(s: Seq<u8>) -> u32 {
    be4(s[0], s[1], s[2], s[3])
}

/// The `u16` whose big-endian form starts `s`.
pub open spec fn u16_from_be(s: Seq<u8>) -> u16 {
    be2(s[0], s[1])
}

/// The eight big-endian bytes of `x`.
pub open spec fn u64_to_be(x: u64) -> Seq<u8> {
    seq![
        (x >> 56u64) as u8,
        (x >> 48u64) as u8,
        (x >> 40u64) as u8,
        (x >> 32u64) as u8,
        (x >> 24u64) as u8,
        (x >> 16u64) as u8,
        (x >> 8u64) as u8,
        x as u8,
    ]
}

/// The four big-endian bytes of `x`.
pub open spec fn u32_to_be(x: u32) -> Seq<u8> {
    seq![(x >> 24u32) as u8, (x >> 16u32) as u8, (x >> 8u32) as u8, x as u8]
}

/// The two big-endian bytes of `x`.
pub open spec fn u16_to_be(x: u16) -> Seq<u8> {
    seq![(x >> 8u16) as u8, x as u8]
}

/// Reading back the bytes written for a `u64` gives the `u64`.
pub proof fn lemma_u64_be_round_trip(x: u64)
    ensures
        u64_to_be(x).len() == 8,
        u64_from_be(u64_to_be(x)) == x,
{
    let s = u64_to_be(x);
    assert(be8(
        (x >> 56u64) as u8,
        (x >> 48u64) as u8,
        (x >> 40u64) as u8,
        (x >> 32u64) as u8,
        (x >> 24u64) as u8,
        (x >> 16u64) as u8,
        (x >> 8u64) as u8,
        x as u8,
    ) == x) by (bit_vector);
}

/// Reading back the bytes written for a `u32` gives the `u32`.
pub proof fn lemma_u32_be_round_trip(x: u32)
    ensures
        u32_to_be(x).len() == 4,
        u32_from_be(u32_to_be(x)) == x,
{
    assert(be4((x >> 24u32) as u8, (x >> 16u32) as u8, (x >> 8u32) as u8, x as u8) == x)
        by (bit_vector);
}

/// Reading back the bytes written for a `u16` gives the `u16`.
pub proof fn lemma_u16_be_round_trip(x: u16)
    ensures
        u16_to_be(x).len() == 2,
        u16_from_be(u16_to_be(x)) == x,
{
    assert(be2((x >> 8u16) as u8, x as u8) == x) by (bit_vector);
}

/// Reads the big-endian `u64` at `at`.
pub fn read_u64_be(buf: &Vec<u8>, at: usize) -> (r: u64)
    requires
        at + 8 <= buf.len(),
    ensures
        r == u64_from_be(buf@.subrange(at as int, at + 8)),
{
    (buf[at] as u64) << 56u64 | (buf[at + 1] as u64) << 48u64 | (buf[at + 2] as u64) << 40u64
        | (buf[at + 3] as u64) << 32u64 | (buf[at + 4] as u64) << 24u64 | (buf[at + 5] as u64)
        << 16u64 | (buf[at + 6] as u64) << 8u64 | (buf[at + 7] as u64)
}

/// Reads the big-endian `u32` at `at`.
pub fn read_u32_be(buf: &Vec<u8>, at: usize) -> (r: u32)
    requires
        at + 4 <= buf.len(),
    ensures
        r == u32_from_be(buf@.subrange(at as int, at + 4)),
{
    (buf[at] as u32) << 24u32 | (buf[at + 1] as u32) << 16u32 | (buf[at + 2] as u32) << 8u32
        | (buf[at + 3] as u32)
}

/// Reads the big-endian `u16` at `at`.
pub fn read_u16_be(buf: &Vec<u8>, at: usize) -> (r: u16)
    requires
        at + 2 <= buf.len(),
    ensures
        r == u16_from_be(buf@.subrange(at as int, at + 2)),
{
    (buf[at] as u16) << 8u16 | (buf[at + 1] as u16)
}

/// Appends the big-endian bytes of `x`.
pub fn push_u64_be(out: &mut Vec<u8>, x: u64)
    ensures
        final(out)@ == old(out)@ + u64_to_be(x),
{
    out.push((x >> 56u64) as u8);
    out.push((x >> 48u64) as u8);
    out.push((x >> 40u64) as u8);
    out.push((x >> 32u64) as u8);
    out.push((x >> 24u64) as u8);
    out.push((x >> 16u64) as u8);
    out.push((x >> 8u64) as u8);
    out.push(x as u8);
    assert(out@ =~= old(out)@ + u64_to_be(x));
}

/// Appends the big-endian bytes of `x`.
pub fn push_u32_be(out: &mut Vec<u8>, x: u32)
    ensures
        final(out)@ == old(out)@ + u32_to_be(x),
{
    out.push((x >> 24u32) as u8);
    out.push((x >> 16u32) as u8);
    out.push((x >> 8u32) as u8);
    out.push(x as u8);
    assert(out@ =~= old(out)@ + u32_to_be(x));
}

/// Appends the big-endian bytes of `x`.
pub fn push_u16_be(out: &mut Vec<u8>, x: u16)
    ensures
        final(out)@ == old(out)@ + u16_to_be(x),
{
    out.push((x >> 8u16) as u8);
    out.push(x as u8);
    assert(out@ =~= old(out)@ + u16_to_be(x));
}

/// Appends `src[lo..hi]` to `out`.
pub fn extend_range(out: &mut Vec<u8>, src: &Vec<u8>, lo: usize, hi: usize)
    requires
        lo <= hi <= src@.len(),
    ensures
        final(out)@ == old(out)@ + src@.subrange(lo as int, hi as int),
{
    let mut i: usize = lo;
    while i < hi
        invariant
            lo <= i <= hi <= src@.len(),
            out@ == old(out)@ + src@.subrange(lo as int, i as int),
        decreases hi - i,
    {
        out.push(src[i]);
        i = i + 1;
        assert(out@ =~= old(out)@ + src@.subrange(lo as int, i as int));
    }
}

/// A fresh copy of `src[lo..hi]`.
pub fn copy_range(src: &Vec<u8>, lo: usize, hi: usize) -> (r: Vec<u8>)
    requires
        lo <= hi <= src@.len(),
    ensures
        r@ == src@.subrange(lo as int, hi as int),
{
    let mut r: Vec<u8> = Vec::new();
    extend_range(&mut r, src, lo, hi);
    assert(r@ =~= src@.subrange(lo as int, hi as int));
    r
}

/// A fresh copy of `src`.
pub fn copy_all(src: &Vec<u8>) -> (r: Vec<u8>)
    ensures
        r@ == src@,
{
    copy_range(src, 0, src.len())
}

/// Whether two byte vectors are equal.
pub fn bytes_eq(a: &Vec<u8>, b: &Vec<u8>) -> (r: bool)
    ensures
        r == (a@ == b@),
{
    if a.len() != b.len() {
        return false;
    }
    let mut i: usize = 0;
    while i < a.len()
        invariant
            i <= a@.len(),
            a@.len() == b@.len(),
            forall|j: int| 0 <= j < i ==> a@[j] == b@[j],
        decreases a@.len() - i,
    {
        if a[i] != b[i] {
            return false;
        }
        i = i + 1;
    }
    assert(a@ =~= b@);
    true
}

} // verus!
