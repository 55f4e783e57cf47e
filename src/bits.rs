//! Bit-level views of byte vectors. Bit `i` lives in byte `i / 8`, and bit 0
//! of a byte is its most significant bit.

use vstd::prelude::*;

verus! {

/// The value (0 or 1) of bit `k` of `b`, counting from the most significant bit.
pub open spec fn bit_of(b: u8, k: u8) -> u8 {
    (b >> ((7 - k) as u8)) & 1u8
}

/// Whether bit `i` of `bytes` is set.
pub open spec fn bit_at(bytes: Seq<u8>, i: int) -> bool {
    bit_of(bytes[i / 8], (i % 8) as u8) == 1u8
}

/// The bits of `bytes`, `true` for a set bit.
pub open spec fn bits_of(bytes: Seq<u8>) -> Seq<bool> {
    Seq::new(bytes.len() * 8, |i: int| bit_at(bytes, i))
}

/// Whether `b[s..s + n]` lies inside `b` and holds only clear bits.
pub open spec fn zero_window(b: Seq<bool>, s: int, n: int) -> bool {
    &&& 0 <= s
    &&& 0 <= n
    &&& s + n <= b.len()
    &&& forall|i: int| s <= i < s + n ==> !#[trigger] b[i]
}

/// Whether `b[s..s + l]` is a maximal non-empty run of clear bits.
pub open spec fn is_run(b: Seq<bool>, s: int, l: int) -> bool {
    &&& l > 0
    &&& zero_window(b, s, l)
    &&& (s == 0 || b[s - 1])
    &&& (s + l == b.len() || b[s + l])
}

proof fn lemma_byte_bits(b: u8, k: u8, j: u8)
    by (bit_vector)
    requires
        k < 8,
        j < 8,
    ensures
        bit_of(b | (0x80u8 >> k), j) == (if j == k { 1u8 } else { bit_of(b, j) }),
        bit_of(b & !(0x80u8 >> k), j) == (if j == k { 0u8 } else { bit_of(b, j) }),
        bit_of(b, j) == 0u8 || bit_of(b, j) == 1u8,
{
}

/// Reads bit `k` of `byte`.
pub fn get_bit(byte: u8, k: u8) -> (r: u8)
    requires
        k < 8,
    ensures
        r == bit_of(byte, k),
        r == 0 || r == 1,
{
    proof {
        lemma_byte_bits(byte, k, k);
    }
    (byte >> (7 - k)) & 1u8
}

/// Reads bit `i` of `bytes`.
pub fn test_bit(bytes: &Vec<u8>, i: usize) -> (r: bool)
    requires
        i < bytes@.len() * 8,
    ensures
        r == bits_of(bytes@)[i as int],
{
    get_bit(bytes[i / 8], (i % 8) as u8) == 1u8
}

/// Sets bit `i` of `bytes` to `v`, leaving every other bit as it was.
pub fn write_bit(bytes: &mut Vec<u8>, i: usize, v: bool)
    requires
        i < old(bytes)@.len() * 8,
    ensures
        final(bytes)@.len() == old(bytes)@.len(),
        bits_of(final(bytes)@) == bits_of(old(bytes)@).update(i as int, v),
{
    let bi = i / 8;
    let k = (i % 8) as u8;
    let b = bytes[bi];
    let nb = if v {
        b | (0x80u8 >> k)
    } else {
        b & !(0x80u8 >> k)
    };
    bytes.set(bi, nb);
    proof {
        let o = bits_of(old(bytes)@);
        let n = bits_of(bytes@);
        assert forall|m: int| 0 <= m < n.len() implies n[m] == o.update(i as int, v)[m] by {
            if m / 8 == bi as int {
                lemma_byte_bits(b, k, (m % 8) as u8);
            }
        }
        assert(n =~= o.update(i as int, v));
    }
}

/// Appending bytes keeps the bits that were there.
pub proof fn lemma_bits_prefix(a: Seq<u8>, c: Seq<u8>)
    ensures
        bits_of(a + c).len() == bits_of(a).len() + bits_of(c).len(),
        forall|i: int| 0 <= i < bits_of(a).len() ==> bits_of(a + c)[i] == bits_of(a)[i],
        forall|i: int|
            bits_of(a).len() <= i < bits_of(a + c).len() ==> bits_of(a + c)[i] == bits_of(c)[i
                - bits_of(a).len()],
{
    assert forall|i: int|
        bits_of(a).len() <= i < bits_of(a + c).len() implies bits_of(a + c)[i] == bits_of(c)[i
        - bits_of(a).len()] by {
        assert(i / 8 - a.len() == (i - a.len() * 8) / 8);
        assert(i % 8 == (i - a.len() * 8) % 8);
    }
}

/// A zero byte holds eight clear bits.
pub proof fn lemma_zero_byte(k: u8)
    by (bit_vector)
    requires
        k < 8,
    ensures
        bit_of(0u8, k) == 0u8,
{
}


/// Whether `b[s..s + n]` is the leftmost window of `n` clear bits.
pub open spec fn is_first_window(b: Seq<bool>, s: int, n: int) -> bool {
    &&& zero_window(b, s, n)
    &&& forall|t: int| 0 <= t < s ==> !zero_window(b, t, n)
}

/// `b` grown or cut to `len` bits (new bits clear), with `[s, s + n)` set to `v`.
pub open spec fn with_range(b: Seq<bool>, len: nat, s: int, n: int, v: bool) -> Seq<bool> {
    Seq::new(
        len,
        |i: int|
            if s <= i < s + n {
                v
            } else if i < b.len() {
                b[i]
            } else {
                false
            },
    )
}

/// Whether `r` starts the clear bits at the end of the last byte of `b`:
/// the trailing run of clear bits, cut to at most eight.
pub open spec fn is_tail_start(b: Seq<bool>, r: int) -> bool {
    &&& 0 <= r <= b.len()
    &&& b.len() - r <= 8
    &&& forall|i: int| r <= i < b.len() ==> !#[trigger] b[i]
    &&& (r == 0 || b.len() - r == 8 || b[r - 1])
}

/// The start of the leftmost window of `n` clear bits, if any (none for `n == 0`).
pub fn first_zero_window(bytes: &Vec<u8>, n: usize) -> (r: Option<usize>)
    requires
        bytes@.len() * 8 <= usize::MAX,
    ensures
        match r {
            Some(s) => n > 0 && is_first_window(bits_of(bytes@), s as int, n as int),
            None => n == 0 || forall|t: int| !zero_window(bits_of(bytes@), t, n as int),
        },
{
    if n == 0 {
        return None;
    }
    let ghost b = bits_of(bytes@);
    let total = bytes.len() * 8;
    let mut count: usize = 0;
    let mut p: usize = 0;
    while p < total
        invariant
            b == bits_of(bytes@),
            total == b.len(),
            n > 0,
            p <= total,
            count <= p,
            count < n,
            forall|j: int| p - count <= j < p ==> !#[trigger] b[j],
            p - count == 0 || b[p - count - 1],
            forall|t: int| 0 <= t && t + n <= p ==> !zero_window(b, t, n as int),
        decreases total - p,
    {
        if test_bit(bytes, p) {
            assert forall|t: int| 0 <= t && t + n <= p + 1 implies !zero_window(
                b,
                t,
                n as int,
            ) by {
                if t + n == p + 1 {
                    assert(b[p as int]);
                }
            }
            count = 0;
        } else {
            count = count + 1;
            if count == n {
                let s = p + 1 - n;
                assert(zero_window(b, s as int, n as int));
                return Some(s);
            }
            assert forall|t: int| 0 <= t && t + n <= p + 1 implies !zero_window(
                b,
                t,
                n as int,
            ) by {
                if t + n == p + 1 {
                    assert(b[p - (count - 1) - 1]);
                }
            }
        }
        p = p + 1;
    }
    None
}

/// Sets every bit of `[s, s + n)` to `v`.
pub fn fill_bits(bytes: &mut Vec<u8>, s: usize, n: usize, v: bool)
    requires
        s + n <= old(bytes)@.len() * 8 <= usize::MAX,
    ensures
        final(bytes)@.len() == old(bytes)@.len(),
        bits_of(final(bytes)@) == with_range(
            bits_of(old(bytes)@),
            old(bytes)@.len() * 8,
            s as int,
            n as int,
            v,
        ),
{
    let ghost b = bits_of(bytes@);
    let mut k: usize = 0;
    while k < n
        invariant
            k <= n,
            s + n <= bytes@.len() * 8 <= usize::MAX,
            bytes@.len() == old(bytes)@.len(),
            b == bits_of(old(bytes)@),
            bits_of(bytes@) == with_range(b, b.len(), s as int, k as int, v),
        decreases n - k,
    {
        write_bit(bytes, s + k, v);
        k = k + 1;
        assert(bits_of(bytes@) =~= with_range(b, b.len(), s as int, k as int, v));
    }
}

/// The start of the clear bits that end the last byte.
pub fn tail_start(bytes: &Vec<u8>) -> (r: usize)
    requires
        bytes@.len() * 8 <= usize::MAX,
    ensures
        is_tail_start(bits_of(bytes@), r as int),
{
    let ghost b = bits_of(bytes@);
    let total = bytes.len() * 8;
    let mut r: usize = total;
    while r > 0 && total - r < 8 && !test_bit(bytes, r - 1)
        invariant
            b == bits_of(bytes@),
            total == b.len(),
            r <= total,
            total - r <= 8,
            forall|i: int| r <= i < total ==> !#[trigger] b[i],
        decreases r,
    {
        r = r - 1;
    }
    r
}

/// Marks `n` bits at the end of the map as used, reusing the clear bits that
/// end the last byte and adding bytes as needed; returns where the run starts.
pub fn extend_with_run(bytes: &mut Vec<u8>, n: usize) -> (r: usize)
    requires
        n > 0,
        old(bytes)@.len() * 8 + n + 8 <= usize::MAX,
        forall|t: int| !zero_window(bits_of(old(bytes)@), t, n as int),
    ensures
        is_tail_start(bits_of(old(bytes)@), r as int),
        r + n > old(bytes)@.len() * 8,
        final(bytes)@.len() == (r + n + 7) / 8,
        bits_of(final(bytes)@) == with_range(
            bits_of(old(bytes)@),
            final(bytes)@.len() * 8,
            r as int,
            n as int,
            true,
        ),
{
    let ghost b = bits_of(bytes@);
    let r = tail_start(bytes);
    let total = bytes.len() * 8;
    if r + n <= total {
        assert(zero_window(b, r as int, n as int));
    }
    let new_len = (r + n + 7) / 8;
    let ghost mid = bytes@;
    while bytes.len() < new_len
        invariant
            bytes@.len() <= new_len,
            new_len * 8 <= usize::MAX,
            mid.len() <= bytes@.len(),
            bytes@.subrange(0, mid.len() as int) == mid,
            forall|j: int| mid.len() <= j < bytes@.len() ==> bytes@[j] == 0u8,
        decreases new_len - bytes@.len(),
    {
        bytes.push(0u8);
    }
    proof {
        let grown = bytes@;
        let tail = grown.subrange(mid.len() as int, grown.len() as int);
        assert(grown =~= mid + tail);
        lemma_bits_prefix(mid, tail);
        assert forall|i: int| 0 <= i < bits_of(tail).len() implies !bits_of(tail)[i] by {
            lemma_zero_byte((i % 8) as u8);
        }
        assert(bits_of(grown) =~= with_range(b, grown.len() * 8, 0, 0, true));
    }
    fill_bits(bytes, r, n, true);
    proof {
        assert(bits_of(bytes@) =~= with_range(b, bytes@.len() * 8, r as int, n as int, true));
    }
    r
}

} // verus!
