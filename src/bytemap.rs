//! A first-fit block bitmap. Each bit stands for one block, set while the
//! block is in use; the map grows at its end when no window of free blocks
//! is long enough.

use vstd::prelude::*;
use crate::bits::{
    bits_of, first_zero_window, get_bit, is_first_window, is_tail_start,
    with_range, zero_window, bit_of, extend_with_run,
};

verus! {

/// A first-fit block bitmap.
pub struct BitMap {
    bits: Vec<u8>,
}

impl View for BitMap {
    type V = Seq<bool>;

    open spec fn view(&self) -> Seq<bool> {
        bits_of(self.bytes())
    }
}

impl BitMap {
    /// The bytes of the map.
    pub closed spec fn bytes(&self) -> Seq<u8> {
        self.bits@
    }

    /// The map is small enough to index every bit with a `usize`.
    pub open spec fn wf(&self) -> bool {
        self.bytes().len() * 8 <= usize::MAX
    }

    /// A map over the given bytes, as they were last written out.
    pub fn new(bits: Vec<u8>) -> (r: Self)
        requires
            bits@.len() * 8 <= usize::MAX,
        ensures
            r.wf(),
            r.bytes() == bits@,
    {
        BitMap { bits }
    }

    /// The bytes of the map.
    pub fn bits(&self) -> (r: &Vec<u8>)
        ensures
            r@ == self.bytes(),
    {
        &self.bits
    }

    /// The number of bits in the map.
    pub fn len(&self) -> (r: usize)
        requires
            self.wf(),
        ensures
            r == self@.len(),
    {
        self.bits.len() * 8
    }

    /// The start of the leftmost run of `n` free bits, if any (none for `n == 0`).
    pub fn find_next_n_zeros(&self, n: usize) -> (r: Option<usize>)
        requires
            self.wf(),
        ensures
            match r {
                Some(s) => n > 0 && is_first_window(self@, s as int, n as int),
                None => n == 0 || forall|t: int| !zero_window(self@, t, n as int),
            },
    {
        first_zero_window(&self.bits, n)
    }

    /// Bit `bit_index` of `byte`, counting from the most significant bit.
    pub fn get_bit(&self, byte: u8, bit_index: u8) -> (r: u8)
        requires
            bit_index < 8,
        ensures
            r == bit_of(byte, bit_index),
    {
        get_bit(byte, bit_index)
    }

    /// Clears the `n` bits from `start_index`: releases a run that was taken.
    pub fn free(&mut self, start_index: usize, n: usize)
        requires
            old(self).wf(),
            start_index + n <= old(self)@.len(),
        ensures
            final(self).wf(),
            final(self)@ == with_range(old(self)@, old(self)@.len(), start_index as int, n as int, false),
    {
        crate::bits::fill_bits(&mut self.bits, start_index, n, false);
    }

    /// Takes `n` consecutive free bits, the leftmost run that fits; when none
    /// fits, the run starts at the free bits that end the map and the map grows.
    pub fn malloc(&mut self, n: usize) -> (r: usize)
        requires
            old(self).wf(),
            n > 0,
            old(self)@.len() + n + 8 <= usize::MAX,
        ensures
            final(self).wf(),
            (exists|s: int| zero_window(old(self)@, s, n as int)) ==> {
                &&& is_first_window(old(self)@, r as int, n as int)
                &&& final(self)@ == with_range(
                    old(self)@,
                    old(self)@.len(),
                    r as int,
                    n as int,
                    true,
                )
            },
            (forall|s: int| !zero_window(old(self)@, s, n as int)) ==> {
                &&& is_tail_start(old(self)@, r as int)
                &&& final(self).bytes().len() == (r + n + 7) / 8
                &&& final(self)@ == with_range(
                    old(self)@,
                    final(self)@.len(),
                    r as int,
                    n as int,
                    true,
                )
            },
    {
        match first_zero_window(&self.bits, n) {
            Some(s) => {
                let ghost b = self@;
                crate::bits::fill_bits(&mut self.bits, s, n, true);
                assert(self@ =~= with_range(b, b.len(), s as int, n as int, true));
                s
            },
            None => extend_with_run(&mut self.bits, n),
        }
    }

    /// The image of the whole map, to be written at the start of its file.
    pub fn flush(&self) -> (r: Vec<u8>)
        ensures
            r@ == self.bytes(),
    {
        crate::codec::copy_all(&self.bits)
    }

    /// Empties the map.
    pub fn reset(&mut self)
        ensures
            final(self).wf(),
            final(self).bytes().len() == 0,
    {
        self.bits = Vec::new();
    }
}

} // verus!
