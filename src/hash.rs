//! Mapping keys to hash slots.

use std::hash::{Hash, Hasher};
use vstd::prelude::*;

verus! {

/// The 64-bit hash that std's `DefaultHasher` (made by `DefaultHasher::new`)
/// gives the byte string `key`.
pub uninterp spec fn default_hash_of(key: Seq<u8>) -> u64;

/// Relies on std::hash::DefaultHasher: `DefaultHasher::new` starts from
/// fixed keys, so the hash of a byte string depends on the bytes alone.
#[verifier::external_body]
fn default_hash(key: &Vec<u8>) -> (r: u64)
    ensures
        r == default_hash_of(key@),
{
    let mut hasher = std::hash::DefaultHasher::new();
    key.hash(&mut hasher);
    hasher.finish()
}

/// The slot of a key with hash `h` among `capacity` slots: the high bits
/// (from bit 18) folded onto the low 18 bits, masked by `capacity - 1`.
pub open spec fn slot_of_hash(h: u64, capacity: u64) -> u64 {
    ((h >> 18u64) ^ (h & 0x3FFFFu64)) & ((capacity - 1) as u64)
}

pub struct HashIndex {}

impl HashIndex {
    /// The slot of a key with hash `hash_code` among `capacity` slots.
    pub fn index_of_hash(hash_code: u64, capacity: usize) -> (r: usize)
        requires
            capacity > 0,
        ensures
            r == slot_of_hash(hash_code, capacity as u64),
            r < capacity,
    {
        let mask = (capacity - 1) as u64;
        let xor_hash = (hash_code >> 18u64) ^ (hash_code & 0x3FFFFu64);
        let index = xor_hash & mask;
        assert(xor_hash & mask <= mask) by (bit_vector);
        index as usize
    }

    /// The slot of `key` among `capacity` slots.
    pub fn calculate_index(key: &Vec<u8>, capacity: usize) -> (r: usize)
        requires
            capacity > 0,
        ensures
            r == slot_of_hash(default_hash_of(key@), capacity as u64),
            r < capacity,
    {
        Self::index_of_hash(default_hash(key), capacity)
    }
}

} // verus!
