//! The key-value log: each set or delete of a key is logged before it is
//! applied, as `op:1 | expires_at:8 | key_len:4 | key | value` (big-endian).

use vstd::prelude::*;
use crate::codec::{
    copy_all, copy_range, extend_range, push_u32_be, push_u64_be, read_u32_be, read_u64_be,
    u32_from_be, u32_to_be, u64_from_be, u64_to_be,
};
use crate::error::Error;
use crate::wal::{payload_bytes, sealed_segments, segs_after_append, Payload, Wal};

verus! {

/// A logged set.
pub const OP_SET: u8 = 1;

/// A logged delete.
pub const OP_DEL: u8 = 2;

pub struct KvWalEntryHeader {
    pub expires_at: u64,
    pub keylen: u32,
}

pub struct KvWalEntry {
    pub op: u8,
    pub key: Vec<u8>,
    pub val: Vec<u8>,
    pub header: KvWalEntryHeader,
}

/// The bytes of a logged operation.
pub open spec fn kv_entry_bytes(op: u8, exp: u64, key: Seq<u8>, val: Seq<u8>) -> Seq<u8> {
    seq![op] + u64_to_be(exp) + u32_to_be(key.len() as u32) + key + val
}

/// The operation held by `buf`, if it is well formed: op, expiry, key, value.
pub open spec fn parse_kv_entry(buf: Seq<u8>) -> Option<(u8, u64, Seq<u8>, Seq<u8>)> {
    if buf.len() < 13 {
        None
    } else {
        let kl = u32_from_be(buf.subrange(9, 13));
        if 13 + kl > buf.len() {
            None
        } else {
            Some(
                (
                    buf[0],
                    u64_from_be(buf.subrange(1, 9)),
                    buf.subrange(13, 13 + kl),
                    buf.subrange(13 + kl, buf.len() as int),
                ),
            )
        }
    }
}

/// Decoding the bytes of an operation gives it back.
pub proof fn lemma_kv_entry_round_trip(op: u8, exp: u64, key: Seq<u8>, val: Seq<u8>)
    requires
        key.len() <= u32::MAX,
    ensures
        parse_kv_entry(kv_entry_bytes(op, exp, key, val)) == Some((op, exp, key, val)),
{
    crate::codec::lemma_u64_be_round_trip(exp);
    crate::codec::lemma_u32_be_round_trip(key.len() as u32);
    let b = kv_entry_bytes(op, exp, key, val);
    assert(b.subrange(1, 9) =~= u64_to_be(exp));
    assert(b.subrange(9, 13) =~= u32_to_be(key.len() as u32));
    assert(b.subrange(13, 13 + key.len() as int) =~= key);
    assert(b.subrange(13 + key.len() as int, b.len() as int) =~= val);
}

impl KvWalEntry {
    pub fn new(op: u8, key: &Vec<u8>, val: &Vec<u8>, expires_at: u64) -> (r: Self)
        requires
            key@.len() <= u32::MAX,
        ensures
            r.op == op,
            r.key@ == key@,
            r.val@ == val@,
            r.header.expires_at == expires_at,
            r.header.keylen == key@.len(),
    {
        KvWalEntry {
            op,
            header: KvWalEntryHeader { keylen: key.len() as u32, expires_at },
            key: copy_all(key),
            val: copy_all(val),
        }
    }

    pub fn encode(&self) -> (r: Vec<u8>)
        requires
            self.header.keylen == self.key@.len(),
        ensures
            r@ == kv_entry_bytes(self.op, self.header.expires_at, self.key@, self.val@),
    {
        let mut buf: Vec<u8> = Vec::new();
        buf.push(self.op);
        push_u64_be(&mut buf, self.header.expires_at);
        push_u32_be(&mut buf, self.header.keylen);
        extend_range(&mut buf, &self.key, 0, self.key.len());
        extend_range(&mut buf, &self.val, 0, self.val.len());
        assert(self.key@.subrange(0, self.key@.len() as int) =~= self.key@);
        assert(self.val@.subrange(0, self.val@.len() as int) =~= self.val@);
        assert(buf@ =~= kv_entry_bytes(self.op, self.header.expires_at, self.key@, self.val@));
        buf
    }

    /// The operation held by `buf`; an error when it is cut short.
    pub fn decode(buf: &Vec<u8>) -> (r: Result<Self, Error>)
        ensures
            match parse_kv_entry(buf@) {
                Some((op, exp, key, val)) => r is Ok && r->Ok_0.op == op
                    && r->Ok_0.header.expires_at == exp && r->Ok_0.key@ == key && r->Ok_0.val@ == val
                    && r->Ok_0.header.keylen == key.len(),
                None => r == Err::<Self, Error>(Error::InvalidWalData),
            },
    {
        let n = buf.len();
        if n < 13 {
            return Err(Error::InvalidWalData);
        }
        let exp = read_u64_be(buf, 1);
        let kl = read_u32_be(buf, 9);
        if kl as usize > n - 13 {
            return Err(Error::InvalidWalData);
        }
        let key_end = 13 + kl as usize;
        Ok(KvWalEntry {
            op: buf[0],
            header: KvWalEntryHeader { expires_at: exp, keylen: kl },
            key: copy_range(buf, 13, key_end),
            val: copy_range(buf, key_end, n),
        })
    }
}

/// The key-value log over a write-ahead log.
pub struct KvWal {
    wal: Wal,
}

impl KvWal {
    pub closed spec fn log(&self) -> Wal {
        self.wal
    }

    pub fn new(wal: Wal) -> (r: Self)
        ensures
            r.log() == wal,
    {
        KvWal { wal }
    }

    /// Logs a set of `key` to `val`, expiring at `expire`; returns its version.
    pub fn set(&mut self, key: &Vec<u8>, val: &Vec<u8>, expire: u64) -> (r: Result<u64, Error>)
        requires
            old(self).log().wf(),
            key@.len() <= u32::MAX,
        ensures
            final(self).log().wf(),
            final(self).log().spec_file_max_size() == old(self).log().spec_file_max_size(),
            final(self).log().spec_rotation_live_time() == old(self).log().spec_rotation_live_time(),
            match r {
                Ok(v) => {
                    &&& v == old(self).log().spec_seq() + 1
                    &&& final(self).log().spec_seq() == v
                    &&& exists|now: u64|
                        final(self).log().segments() == #[trigger] segs_after_append(
                            old(self).log().segments(),
                            payload_bytes(kv_entry_bytes(OP_SET, expire, key@, val@), v),
                            v,
                            old(self).log().spec_file_max_size(),
                            old(self).log().spec_rotation_live_time(),
                            old(self).log().spec_rotation_time(),
                            now,
                        )
                },
                Err(e) => e == Error::AppendWalDataFailed && final(self).log().segments() == old(
                    self,
                ).log().segments() && final(self).log().spec_seq() == old(self).log().spec_seq(),
            },
            old(self).log().can_append((13 + key@.len() + val@.len()) as int) ==> r is Ok,
    {
        self.append(OP_SET, key, val, expire)
    }

    /// Logs a delete of `key`; returns its version.
    pub fn del(&mut self, key: &Vec<u8>) -> (r: Result<u64, Error>)
        requires
            old(self).log().wf(),
            key@.len() <= u32::MAX,
        ensures
            final(self).log().wf(),
            final(self).log().spec_file_max_size() == old(self).log().spec_file_max_size(),
            final(self).log().spec_rotation_live_time() == old(self).log().spec_rotation_live_time(),
            match r {
                Ok(v) => {
                    &&& v == old(self).log().spec_seq() + 1
                    &&& final(self).log().spec_seq() == v
                    &&& exists|now: u64|
                        final(self).log().segments() == #[trigger] segs_after_append(
                            old(self).log().segments(),
                            payload_bytes(kv_entry_bytes(OP_DEL, 0u64, key@, Seq::<u8>::empty()), v),
                            v,
                            old(self).log().spec_file_max_size(),
                            old(self).log().spec_rotation_live_time(),
                            old(self).log().spec_rotation_time(),
                            now,
                        )
                },
                Err(e) => e == Error::AppendWalDataFailed && final(self).log().segments() == old(
                    self,
                ).log().segments() && final(self).log().spec_seq() == old(self).log().spec_seq(),
            },
            old(self).log().can_append((13 + key@.len() + Seq::<u8>::empty().len()) as int) ==> r is Ok,
    {
        let empty: Vec<u8> = Vec::new();
        assert(empty@ =~= Seq::<u8>::empty());
        self.append(OP_DEL, key, &empty, 0)
    }

    /// Retires the segments below `version`; returns their starts.
    pub fn checkpoint(&mut self, version: u64) -> (r: Vec<u64>)
        requires
            old(self).log().wf(),
        ensures
            final(self).log().wf(),
            final(self).log().spec_seq() == old(self).log().spec_seq(),
            r@.len() < sealed_segments(old(self).log().segments(), old(self).log().spec_seq(), version).len(),
            final(self).log().segments() == sealed_segments(
                old(self).log().segments(),
                old(self).log().spec_seq(),
                version,
            ).skip(r@.len() as int),
            forall|i: int|
                0 <= i < r@.len() ==> #[trigger] r@[i] == sealed_segments(
                    old(self).log().segments(),
                    old(self).log().spec_seq(),
                    version,
                )[i].0,
            forall|i: int|
                0 <= i < r@.len() ==> (#[trigger] sealed_segments(
                    old(self).log().segments(),
                    old(self).log().spec_seq(),
                    version,
                )[i]).0 < version,
            r@.len() == sealed_segments(old(self).log().segments(), old(self).log().spec_seq(), version).len()
                - 1 || sealed_segments(old(self).log().segments(), old(self).log().spec_seq(), version)[r@.len() as int].0
                >= version,
    {
        let ghost segs = self.wal.segments();
        let ghost seq = self.wal.spec_seq();
        let r = self.wal.checked_version(version);
        proof {
            let ss = sealed_segments(segs, seq, version);
            assert forall|i: int| 0 <= i < r@.len() implies (#[trigger] ss[i]).0 < version by {
                assert(r@[i] == ss[i].0);
            }
        }
        r
    }

    /// The logged payloads of the segments whose start is in range.
    pub fn reader(&self, min_version: u64, max_version: u64) -> (r: Vec<Payload>)
        ensures
            r@.map_values(|p: Payload| (p.data@, p.version)) == crate::wal::read_range(
                self.log().segments(),
                min_version,
                max_version,
            ),
    {
        self.wal.reader(min_version, max_version)
    }

    /// The log underneath.
    pub fn wal(&self) -> (r: &Wal)
        ensures
            *r == self.log(),
    {
        &self.wal
    }

    fn append(&mut self, op: u8, key: &Vec<u8>, val: &Vec<u8>, expire: u64) -> (r: Result<
        u64,
        Error,
    >)
        requires
            old(self).log().wf(),
            key@.len() <= u32::MAX,
        ensures
            final(self).log().wf(),
            final(self).log().spec_file_max_size() == old(self).log().spec_file_max_size(),
            final(self).log().spec_rotation_live_time() == old(self).log().spec_rotation_live_time(),
            match r {
                Ok(v) => {
                    &&& v == old(self).log().spec_seq() + 1
                    &&& final(self).log().spec_seq() == v
                    &&& exists|now: u64|
                        final(self).log().segments() == #[trigger] segs_after_append(
                            old(self).log().segments(),
                            payload_bytes(kv_entry_bytes(op, expire, key@, val@), v),
                            v,
                            old(self).log().spec_file_max_size(),
                            old(self).log().spec_rotation_live_time(),
                            old(self).log().spec_rotation_time(),
                            now,
                        )
                },
                Err(e) => e == Error::AppendWalDataFailed && final(self).log().segments() == old(
                    self,
                ).log().segments() && final(self).log().spec_seq() == old(self).log().spec_seq(),
            },
            old(self).log().can_append((13 + key@.len() + val@.len()) as int) ==> r is Ok,
    {
        let entry = KvWalEntry::new(op, key, val, expire);
        let bytes = entry.encode();
        self.wal.append(&bytes)
    }
}

} // verus!
