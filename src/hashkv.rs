//! The key-value store: keys hash to slots; a write is logged in the
//! key-value WAL, applied to its slot's blob in the change buffer and kept in
//! a read cache. Reads try the cache, then the buffer, then storage.

use vstd::prelude::*;
use crate::assoc::{distinct, lemma_assoc_has, lemma_assoc_lacks};
use crate::cbf::{entries_view, Cbf};
use crate::config::KvConfig;
use crate::error::Error;
use crate::hash::HashIndex;
use crate::kvwal::{KvWal, KvWalEntry, OP_DEL};
use crate::serve::Serve;
use crate::slot::{distinct_keys, encode_live, encodes, expired, item_fits, parse_slot, put_live, Slot, EXPIRE_DEL};

verus! {

/// The read cache: an `lru::LruCache` from key to value and expiry. Verus
/// cannot see the cache's hasher type, so the cache is held here, out of
/// its sight, and reached through the functions below.
#[verifier::external_body]
pub struct Cache {
    lru: lru::LruCache<Vec<u8>, (Vec<u8>, u64)>,
}

/// The entries a read cache holds, by key.
pub uninterp spec fn cache_contents(c: Cache) -> Map<Seq<u8>, (Seq<u8>, u64)>;

/// A cache with no entries.
pub open spec fn no_entries() -> Map<Seq<u8>, (Seq<u8>, u64)> {
    Map::empty()
}

/// Relies on lru::LruCache::new: a cache that starts empty and holds at
/// most `cap` entries.
#[verifier::external_body]
fn cache_new(cap: usize) -> (r: Cache)
    requires
        cap > 0,
    ensures
        cache_contents(r) == no_entries(),
{
    Cache { lru: lru::LruCache::new(std::num::NonZeroUsize::new(cap).unwrap()) }
}

/// Relies on lru::LruCache::put: afterwards the key maps to the value, and
/// every other entry was there before with the same value (a full cache
/// drops its least recently used entry).
#[verifier::external_body]
fn cache_put(c: &mut Cache, key: Vec<u8>, val: (Vec<u8>, u64))
    ensures
        cache_contents(*final(c)).contains_key(key@),
        cache_contents(*final(c))[key@] == (val.0@, val.1),
        forall|k: Seq<u8>|
            #[trigger] cache_contents(*final(c)).contains_key(k) && k != key@ ==> cache_contents(
                *old(c),
            ).contains_key(k) && cache_contents(*final(c))[k] == cache_contents(*old(c))[k],
{
    c.lru.put(key, val);
}

/// Relies on lru::LruCache::get: the entry of the key if the cache holds
/// it; the entries stay as they were (only their recency changes).
#[verifier::external_body]
fn cache_get(c: &mut Cache, key: &Vec<u8>) -> (r: Option<(Vec<u8>, u64)>)
    ensures
        cache_contents(*final(c)) == cache_contents(*old(c)),
        match r {
            Some(e) => cache_contents(*old(c)).contains_key(key@) && cache_contents(*old(c))[key@]
                == (e.0@, e.1),
            None => !cache_contents(*old(c)).contains_key(key@),
        },
{
    match c.lru.get(key) {
        Some(e) => Some((e.0.clone(), e.1)),
        None => None,
    }
}

/// Whether `r` is what a slot with pairs `m` held for `key`.
pub open spec fn prior_value(m: Map<Seq<u8>, (Seq<u8>, u64)>, key: Seq<u8>, r: Option<Vec<u8>>) -> bool {
    match r {
        Some(v) => m.contains_key(key) && m[key].0 == v@,
        None => !m.contains_key(key),
    }
}

/// What a read of `key` at `now` returns from a cache that holds it: its
/// value unless it has expired.
pub open spec fn cached_read(m: Map<Seq<u8>, (Seq<u8>, u64)>, key: Seq<u8>, now: u64) -> Option<
    Seq<u8>,
> {
    if expired(m[key].1, now) {
        None
    } else {
        Some(m[key].0)
    }
}

/// The expiry of a write made at `now` that lives `expire` seconds (none:
/// never expires); it saturates at `u64::MAX`.
pub open spec fn expiry_of(expire: Option<u64>, now: u64) -> u64 {
    match expire {
        Some(d) => if now + d > u64::MAX { u64::MAX } else { (now + d) as u64 },
        None => 0,
    }
}

/// What a read of `key` at `now` returns when the cache does not hold it:
/// the key's live value in its slot's buffered blob, which is final when it
/// is well formed; else its live value in the slot's stored blob.
pub open spec fn uncached_read(
    buffered: Option<Seq<u8>>,
    stored: Option<Seq<u8>>,
    key: Seq<u8>,
    now: u64,
) -> Option<Seq<u8>> {
    let from_buffer = match buffered {
        Some(b) => crate::slot::blob_read(b, key, now),
        None => None,
    };
    match from_buffer {
        Some(found) => found,
        None => match stored {
            Some(b) => match crate::slot::blob_read(b, key, now) {
                Some(Some(v)) => Some(v),
                _ => None,
            },
            None => None,
        },
    }
}

pub struct HashKv {
    store: Serve,
    wal: KvWal,
    cbf: Cbf,
    slots: u32,
    lru: Cache,
}

impl HashKv {
    pub closed spec fn cache(&self) -> Map<Seq<u8>, (Seq<u8>, u64)> {
        cache_contents(self.lru)
    }

    /// What a read of `key` at `now` returns.
    pub open spec fn read(&self, key: Seq<u8>, now: u64) -> Option<Seq<u8>> {
        if self.cache().contains_key(key) {
            cached_read(self.cache(), key, now)
        } else {
            let slot = crate::hash::slot_of_hash(crate::hash::default_hash_of(key), self.slot_qty() as u64);
            uncached_read(
                self.buffer().value(slot as usize),
                self.storage().read_value(slot as usize),
                key,
                now,
            )
        }
    }

    /// The change buffer of slot blobs.
    pub closed spec fn buffer(&self) -> Cbf {
        self.cbf
    }

    /// The storage layer.
    pub closed spec fn storage(&self) -> Serve {
        self.store
    }

    /// Whether a write of `key` to `val` is owed success: the key's length
    /// fits the log and the blob, the pair fits a blob, the log can take the
    /// record, and the key's slot loads.
    pub open spec fn can_write(&self, key: Seq<u8>, val: Seq<u8>) -> bool {
        &&& 0 < key.len() <= u32::MAX
        &&& 20 + key.len() + val.len() <= u64::MAX
        &&& self.log().log().can_append((13 + key.len() + val.len()) as int)
        &&& self.slot_loads(self.slot_of(key))
    }

    /// The slot of `key`.
    pub open spec fn slot_of(&self, key: Seq<u8>) -> usize {
        crate::hash::slot_of_hash(crate::hash::default_hash_of(key), self.slot_qty() as u64) as usize
    }

    /// The blob a write to slot `slot` starts from: the buffered one, else
    /// the stored one (none when storage cannot be read).
    pub open spec fn slot_blob(&self, slot: usize) -> Option<Seq<u8>> {
        match self.buffer().value(slot) {
            Some(b) => Some(b),
            None => self.storage().read_value(slot),
        }
    }

    /// Whether slot `slot` can be loaded for a write: its blob, if any, is
    /// well formed.
    pub open spec fn slot_loads(&self, slot: usize) -> bool {
        match self.slot_blob(slot) {
            Some(b) => parse_slot(b) is Some,
            None => true,
        }
    }

    /// The pairs of slot `slot` as a write at `now` loads them.
    pub open spec fn loaded(&self, slot: usize, now: u64) -> Map<Seq<u8>, (Seq<u8>, u64)> {
        match self.slot_blob(slot) {
            Some(b) => put_live(Map::empty(), parse_slot(b)->Some_0, now),
            None => Map::empty(),
        }
    }

    /// The number of hash slots.
    pub closed spec fn slot_qty(&self) -> u32 {
        self.slots
    }

    /// The key-value log.
    pub closed spec fn log(&self) -> KvWal {
        self.wal
    }

    pub closed spec fn wf(&self) -> bool {
        &&& self.store.wf()
        &&& self.wal.log().wf()
        &&& self.cbf.wf()
        &&& self.slots > 0
    }

    /// A store over a storage layer and a key-value log, with the cache,
    /// buffer and slot count of `conf`. Every logged operation is applied
    /// to the buffer again.
    pub fn new(store: Serve, wal: KvWal, conf: &KvConfig) -> (r: Result<Self, Error>)
        requires
            store.wf(),
            wal.log().wf(),
            conf.slot_qty > 0,
            conf.cache_cap > 0,
        ensures
            r is Ok ==> {
                &&& r->Ok_0.wf()
                &&& r->Ok_0.log() == wal
                &&& r->Ok_0.storage() == store
                &&& r->Ok_0.slot_qty() == conf.slot_qty
                &&& r->Ok_0.cache() == no_entries()
            },
            crate::wal::read_range(wal.log().segments(), 0, 0).len() == 0 ==> r is Ok && forall|q: usize|
                #[trigger] r->Ok_0.buffer().value(q) is None,
    {
        let mut kv = HashKv {
            store,
            wal,
            cbf: Cbf::new(conf.cbf_cap),
            slots: conf.slot_qty,
            lru: cache_new(conf.cache_cap),
        };
        proof {
            assert forall|q: usize| #[trigger] kv.buffer().value(q) is None by {
                let pages = kv.buffer().pages();
                assert(pages.len() == 1);
                assert(!pages.last().contains_key(q));
                assert(pages.drop_last() =~= Seq::<Map<usize, Seq<u8>>>::empty());
                assert(crate::cbf::lookup(pages.drop_last(), q) is None);
            }
        }
        match kv.init_wal_logs() {
            Ok(()) => {
                kv.lru = cache_new(conf.cache_cap);
                Ok(kv)
            },
            Err(e) => Err(e),
        }
    }

    fn init_wal_logs(&mut self) -> (r: Result<(), Error>)
        requires
            old(self).wf(),
        ensures
            final(self).wf(),
            final(self).log() == old(self).log(),
            final(self).storage() == old(self).storage(),
            final(self).slot_qty() == old(self).slot_qty(),
            crate::wal::read_range(old(self).log().log().segments(), 0, 0).len() == 0 ==> r is Ok
                && final(self).buffer() == old(self).buffer(),
    {
        let payloads = self.wal.reader(0, 0);
        assert(payloads@.len() == payloads@.map_values(|p: crate::wal::Payload| (p.data@, p.version)).len());
        let now = crate::clock::now_secs();
        let mut i: usize = 0;
        while i < payloads.len()
            invariant
                self.wf(),
                payloads@.len() == crate::wal::read_range(old(self).log().log().segments(), 0, 0).len(),
                self.log() == old(self).log(),
                self.storage() == old(self).storage(),
                self.slot_qty() == old(self).slot_qty(),
                i == 0 ==> self.buffer() == old(self).buffer(),
                i <= payloads@.len(),
            decreases payloads@.len() - i,
        {
            let p = &payloads[i];
            match KvWalEntry::decode(&p.data) {
                Ok(entry) => {
                    if entry.op == OP_DEL {
                        match self.del_in_cbf(p.version, &entry.key, now) {
                            Ok(_) => {},
                            Err(e) => {
                                return Err(e);
                            },
                        }
                    } else {
                        if entry.key.len() == 0 || entry.key.len() as u64 > 0xffff_ffffu64 || entry.val.len() as u64
                            > u64::MAX - 20 - entry.key.len() as u64 {
                            return Err(Error::SlotEncodeFailed);
                        }
                        match self._set_to_cbf(p.version, &entry.key, &entry.val, entry.header.expires_at, now) {
                            Ok(()) => {},
                            Err(e) => {
                                return Err(e);
                            },
                        }
                    }
                },
                Err(e) => {
                    return Err(e);
                },
            }
            i = i + 1;
        }
        Ok(())
    }

    /// The slot of `key`.
    pub fn calculate_index(&self, key: &Vec<u8>) -> (r: usize)
        requires
            self.wf(),
        ensures
            r == crate::hash::slot_of_hash(crate::hash::default_hash_of(key@), self.slot_qty() as u64),
            r < self.slot_qty(),
    {
        HashIndex::calculate_index(key, self.slots as usize)
    }

    /// The current contents of the slot `slot_no`: the buffered blob, else
    /// the stored one, else an empty slot.
    fn load_slot(&self, slot_no: usize, now: u64) -> (r: Result<Slot, Error>)
        requires
            self.wf(),
        ensures
            r is Ok ==> r->Ok_0.wf() && r->Ok_0.kv() == self.loaded(slot_no, now),
            self.slot_loads(slot_no) <==> r is Ok,
            r is Err ==> r == Err::<Slot, Error>(Error::SlotDecodeFailed),
    {
        match self.cbf.get(slot_no) {
            Some(blob) => Slot::new_at(slot_no, &blob, now),
            None => match self.store.get(slot_no) {
                Ok(blob) => Slot::new_at(slot_no, &blob, now),
                Err(_) => Ok(Slot::empty(slot_no)),
            },
        }
    }

    /// Applies a logged write of version `version` to its slot in the
    /// buffer and to the cache.
    fn _set_to_cbf(&mut self, version: u64, key: &Vec<u8>, val: &Vec<u8>, expires_at: u64, now: u64) -> (r: Result<(), Error>)
        requires
            old(self).wf(),
            item_fits((key@, val@, expires_at)),
        ensures
            old(self).slot_loads(old(self).slot_of(key@)) ==> r is Ok,
            final(self).storage() == old(self).storage(),
            final(self).log() == old(self).log(),
            final(self).slot_qty() == old(self).slot_qty(),
            r is Ok ==> final(self).buffer().value(old(self).slot_of(key@)) is Some && encodes(
                final(self).buffer().value(old(self).slot_of(key@))->Some_0,
                old(self).loaded(old(self).slot_of(key@), now).insert(key@, (val@, expires_at)),
                now,
            ),
            r is Ok ==> forall|q: usize| q != old(self).slot_of(key@) ==> #[trigger] final(self).buffer().value(q)
                == old(self).buffer().value(q),
            r is Err ==> final(self).buffer() == old(self).buffer(),
            final(self).wf(),
            r is Ok ==> final(self).cache().contains_key(key@) && final(self).cache()[key@] == (
                val@,
                expires_at,
            ),
            r is Err ==> (r->Err_0 == Error::SlotDecodeFailed || r->Err_0 == Error::SlotEncodeFailed)
                && final(self).cache() == old(self).cache(),
    {
        let slot_no = self.calculate_index(key);
        let mut slot = match self.load_slot(slot_no, now) {
            Ok(s) => s,
            Err(e) => {
                return Err(e);
            },
        };
        slot.set(key, val, expires_at);
        let blob = match slot.encode_at(now) {
            Ok(b) => b,
            Err(e) => {
                return Err(e);
            },
        };
        assert(encode_live(slot.items(), now) == blob@ && distinct_keys(slot.items()));
        let _ = self.cbf.insert(version as usize, slot_no, blob);
        cache_put(&mut self.lru, crate::codec::copy_all(key), (crate::codec::copy_all(val), expires_at));
        Ok(())
    }

    /// Applies a logged delete of version `version` to its slot in the
    /// buffer and marks the key deleted in the cache; returns the value the
    /// slot held.
    fn del_in_cbf(&mut self, version: u64, key: &Vec<u8>, now: u64) -> (r: Result<Option<Vec<u8>>, Error>)
        requires
            old(self).wf(),
        ensures
            final(self).wf(),
            old(self).slot_loads(old(self).slot_of(key@)) ==> r is Ok,
            r is Ok ==> prior_value(old(self).loaded(old(self).slot_of(key@), now), key@, r->Ok_0),
            final(self).storage() == old(self).storage(),
            final(self).log() == old(self).log(),
            final(self).slot_qty() == old(self).slot_qty(),
            r is Ok ==> final(self).buffer().value(old(self).slot_of(key@)) is Some && encodes(
                final(self).buffer().value(old(self).slot_of(key@))->Some_0,
                old(self).loaded(old(self).slot_of(key@), now).remove(key@),
                now,
            ),
            r is Ok ==> forall|q: usize| q != old(self).slot_of(key@) ==> #[trigger] final(self).buffer().value(q)
                == old(self).buffer().value(q),
            r is Err ==> final(self).buffer() == old(self).buffer(),
            r is Err ==> (r->Err_0 == Error::SlotDecodeFailed || r->Err_0 == Error::SlotEncodeFailed)
                && final(self).cache() == old(self).cache(),
            r is Ok ==> final(self).cache().contains_key(key@) && final(self).cache()[key@] == (
                Seq::<u8>::empty(),
                EXPIRE_DEL,
            ),
    {
        let slot_no = self.calculate_index(key);
        let mut slot = match self.load_slot(slot_no, now) {
            Ok(s) => s,
            Err(e) => {
                return Err(e);
            },
        };
        let prev = slot.del(key);
        let blob = match slot.encode_at(now) {
            Ok(b) => b,
            Err(e) => {
                return Err(e);
            },
        };
        assert(encode_live(slot.items(), now) == blob@ && distinct_keys(slot.items()));
        let _ = self.cbf.insert(version as usize, slot_no, blob);
        let empty: Vec<u8> = Vec::new();
        cache_put(&mut self.lru, crate::codec::copy_all(key), (empty, EXPIRE_DEL));
        match prev {
            Some(e) => Ok(Some(e.value)),
            None => Ok(None),
        }
    }

    /// Whether storage has flushed every buffered page into the main block.
    pub fn storage_drained(&self) -> (r: bool)
        requires
            self.wf(),
        ensures
            r == self.storage().drained(),
    {
        self.store.is_drained()
    }

    /// Sets `key` to `val` at time `now`, expiring `expire` seconds later
    /// (none: never). Fails, changing nothing, when the write cannot be
    /// logged.
    pub fn setnx_at(&mut self, key: &Vec<u8>, val: &Vec<u8>, expire: Option<u64>, now: u64) -> (r: Result<(), Error>)
        requires
            old(self).wf(),
        ensures
            final(self).wf(),
            r is Ok ==> final(self).cache().contains_key(key@) && final(self).cache()[key@] == (
                val@,
                expiry_of(expire, now),
            ),
            r == Err::<(), Error>(Error::AppendWalDataFailed) ==> final(self).cache() == old(self).cache(),
            old(self).can_write(key@, val@) ==> r is Ok,
            r is Ok ==> final(self).buffer().value(old(self).slot_of(key@)) is Some && encodes(
                final(self).buffer().value(old(self).slot_of(key@))->Some_0,
                old(self).loaded(old(self).slot_of(key@), now).insert(key@, (val@, expiry_of(expire, now))),
                now,
            ),
            r is Ok ==> forall|q: usize| q != old(self).slot_of(key@) ==> #[trigger] final(self).buffer().value(q)
                == old(self).buffer().value(q),
            final(self).storage() == old(self).storage(),
            final(self).slot_qty() == old(self).slot_qty(),
    {
        let expires_at = match expire {
            Some(d) => if d > u64::MAX - now {
                u64::MAX
            } else {
                now + d
            },
            None => 0,
        };
        if key.len() > 0xffff_ffff {
            return Err(Error::AppendWalDataFailed);
        }
        if key.len() == 0 || val.len() as u64 > u64::MAX - 20 - key.len() as u64 {
            return Err(Error::SlotEncodeFailed);
        }
        let version = match self.wal.set(key, val, expires_at) {
            Ok(v) => v,
            Err(e) => {
                return Err(e);
            },
        };
        self._set_to_cbf(version, key, val, expires_at, now)
    }

    /// Sets `key` to `val`, expiring `expire` seconds from now (none: never).
    pub fn setnx(&mut self, key: &Vec<u8>, val: &Vec<u8>, expire: Option<u64>) -> (r: Result<(), Error>)
        requires
            old(self).wf(),
        ensures
            final(self).wf(),
            r is Ok ==> exists|now: u64|
                final(self).cache().contains_key(key@) && #[trigger] final(self).cache()[key@] == (
                    val@,
                    expiry_of(expire, now),
                ),
            old(self).can_write(key@, val@) ==> r is Ok,
            r is Ok ==> exists|now: u64| final(self).buffer().value(old(self).slot_of(key@)) is Some && encodes(
                final(self).buffer().value(old(self).slot_of(key@))->Some_0,
                #[trigger] old(self).loaded(old(self).slot_of(key@), now).insert(key@, (val@, expiry_of(expire, now))),
                now,
            ),
            r is Ok ==> forall|q: usize| q != old(self).slot_of(key@) ==> #[trigger] final(self).buffer().value(q)
                == old(self).buffer().value(q),
            final(self).storage() == old(self).storage(),
            final(self).slot_qty() == old(self).slot_qty(),
    {
        let now = crate::clock::now_secs();
        self.setnx_at(key, val, expire, now)
    }

    /// Sets `key` to `val`, never expiring.
    pub fn set(&mut self, key: &Vec<u8>, val: &Vec<u8>) -> (r: Result<(), Error>)
        requires
            old(self).wf(),
        ensures
            final(self).wf(),
            r is Ok ==> final(self).cache().contains_key(key@) && final(self).cache()[key@] == (
                val@,
                0u64,
            ),
            old(self).can_write(key@, val@) ==> r is Ok,
            r is Ok ==> exists|now: u64| final(self).buffer().value(old(self).slot_of(key@)) is Some && encodes(
                final(self).buffer().value(old(self).slot_of(key@))->Some_0,
                #[trigger] old(self).loaded(old(self).slot_of(key@), now).insert(key@, (val@, 0u64)),
                now,
            ),
            r is Ok ==> forall|q: usize| q != old(self).slot_of(key@) ==> #[trigger] final(self).buffer().value(q)
                == old(self).buffer().value(q),
            final(self).storage() == old(self).storage(),
            final(self).slot_qty() == old(self).slot_qty(),
    {
        let now = crate::clock::now_secs();
        assert(expiry_of(None, now) == 0u64);
        self.setnx_at(key, val, None, now)
    }

    /// The value of `key` at time `now`: from the cache when it holds the
    /// key (nothing if that entry has expired), else from the key's slot in
    /// the buffer, else from storage (and then cached).
    pub fn get_at(&mut self, key: &Vec<u8>, now: u64) -> (r: Option<Vec<u8>>)
        requires
            old(self).wf(),
        ensures
            final(self).wf(),
            match old(self).read(key@, now) {
                Some(v) => r is Some && r->Some_0@ == v,
                None => r is None,
            },
    {
        match cache_get(&mut self.lru, key) {
            Some((v, e)) => {
                if e == EXPIRE_DEL || (e > 0 && now > e) {
                    return None;
                }
                return Some(v);
            },
            None => {},
        }
        let slot_no = self.calculate_index(key);
        match self.cbf.get(slot_no) {
            Some(blob) => {
                match Slot::new_at(slot_no, &blob, now) {
                    Ok(slot) => {
                        proof {
                            crate::slot::lemma_put_live_live(Map::empty(), parse_slot(blob@)->Some_0, now);
                        }
                        match slot.get(key) {
                            Some(entry) => {
                                if entry.has_expired_at(now) {
                                    return None;
                                }
                                return Some(entry.value);
                            },
                            None => {
                                return None;
                            },
                        }
                    },
                    Err(_) => {},
                }
            },
            None => {},
        }
        match self.store.get(slot_no) {
            Ok(blob) => match Slot::new_at(slot_no, &blob, now) {
                Ok(slot) => {
                    proof {
                        crate::slot::lemma_put_live_live(Map::empty(), parse_slot(blob@)->Some_0, now);
                    }
                    match slot.get(key) {
                        Some(entry) => {
                            if entry.has_expired_at(now) {
                                return None;
                            }
                            let v = crate::codec::copy_all(&entry.value);
                            cache_put(&mut self.lru, crate::codec::copy_all(key), (entry.value, entry.expires_at));
                            Some(v)
                        },
                        None => None,
                    }
                },
                Err(_) => None,
            },
            Err(_) => None,
        }
    }

    /// The value of `key` by the wall clock.
    pub fn get(&mut self, key: &Vec<u8>) -> (r: Option<Vec<u8>>)
        requires
            old(self).wf(),
        ensures
            final(self).wf(),
            exists|now: u64|
                match #[trigger] old(self).read(key@, now) {
                    Some(v) => r is Some && r->Some_0@ == v,
                    None => r is None,
                },
    {
        let now = crate::clock::now_secs();
        self.get_at(key, now)
    }

    /// Deletes `key` at time `now`; returns the value its slot held.
    pub fn del_at(&mut self, key: &Vec<u8>, now: u64) -> (r: Result<Option<Vec<u8>>, Error>)
        requires
            old(self).wf(),
        ensures
            final(self).wf(),
            old(self).can_write(key@, Seq::<u8>::empty()) ==> r is Ok,
            r is Ok ==> prior_value(old(self).loaded(old(self).slot_of(key@), now), key@, r->Ok_0),
            r is Ok ==> final(self).cache().contains_key(key@) && final(self).cache()[key@] == (
                Seq::<u8>::empty(),
                EXPIRE_DEL,
            ),
            r is Ok ==> final(self).buffer().value(old(self).slot_of(key@)) is Some && encodes(
                final(self).buffer().value(old(self).slot_of(key@))->Some_0,
                old(self).loaded(old(self).slot_of(key@), now).remove(key@),
                now,
            ),
            r is Ok ==> forall|q: usize| q != old(self).slot_of(key@) ==> #[trigger] final(self).buffer().value(q)
                == old(self).buffer().value(q),
            final(self).storage() == old(self).storage(),
            final(self).slot_qty() == old(self).slot_qty(),
    {
        if key.len() > 0xffff_ffff {
            return Err(Error::AppendWalDataFailed);
        }
        let version = match self.wal.del(key) {
            Ok(v) => v,
            Err(e) => {
                return Err(e);
            },
        };
        self.del_in_cbf(version, key, now)
    }

    /// Deletes `key`; returns the value its slot held.
    pub fn del(&mut self, key: &Vec<u8>) -> (r: Result<Option<Vec<u8>>, Error>)
        requires
            old(self).wf(),
        ensures
            final(self).wf(),
            old(self).can_write(key@, Seq::<u8>::empty()) ==> r is Ok,
            r is Ok ==> exists|now: u64|
                prior_value(#[trigger] old(self).loaded(old(self).slot_of(key@), now), key@, r->Ok_0),
            r is Ok ==> final(self).cache().contains_key(key@) && final(self).cache()[key@] == (
                Seq::<u8>::empty(),
                EXPIRE_DEL,
            ),
            r is Ok ==> exists|now: u64| final(self).buffer().value(old(self).slot_of(key@)) is Some && encodes(
                final(self).buffer().value(old(self).slot_of(key@))->Some_0,
                #[trigger] old(self).loaded(old(self).slot_of(key@), now).remove(key@),
                now,
            ),
            r is Ok ==> forall|q: usize| q != old(self).slot_of(key@) ==> #[trigger] final(self).buffer().value(q)
                == old(self).buffer().value(q),
            final(self).storage() == old(self).storage(),
            final(self).slot_qty() == old(self).slot_qty(),
    {
        let now = crate::clock::now_secs();
        self.del_at(key, now)
    }

    /// One pass of the key-value flusher: the oldest buffered page of slot
    /// blobs goes to storage. Returns the page's highest version, up to which
    /// the key-value log may be retired once storage has flushed it
    /// (`retire_log`), or nothing when no page was ready.
    pub fn flush_once(&mut self) -> (r: Result<Option<u64>, Error>)
        requires
            old(self).wf(),
        ensures
            final(self).wf(),
            final(self).log() == old(self).log(),
            old(self).buffer().retired().len() == 0 ==> r == Ok::<Option<u64>, Error>(None),
            match r {
                Ok(Some(v)) => {
                    &&& old(self).buffer().retired().len() > 0
                    &&& v == old(self).buffer().retired()[0].max_version as u64
                    &&& final(self).buffer().pages() == old(self).buffer().pages().skip(1)
                    &&& forall|k: usize|
                        #[trigger] old(self).buffer().retired()[0].map().contains_key(k)
                            ==> final(self).storage().buffered(k) == Some(old(self).buffer().retired()[0].map()[k])
                },
                Ok(None) => {
                    &&& old(self).buffer().retired().len() == 0
                    &&& final(self).storage() == old(self).storage()
                },
                Err(e) => e == Error::AppendWalDataFailed,
            },
    {
        let (_, page) = match self.cbf.pop_first_page() {
            Some(x) => x,
            None => {
                return Ok(None);
            },
        };
        let ghost popped = self.cbf;
        let ghost e = entries_view(page.entrys@);
        let mut i: usize = 0;
        while i < page.entrys.len()
            invariant
                self.wf(),
                self.cbf == popped,
                self.wal == old(self).wal,
                old(self).buffer().retired().len() > 0,
                i <= page.entrys@.len(),
                e == entries_view(page.entrys@),
                distinct(e),
                forall|t: int| 0 <= t < i ==> self.storage().buffered(#[trigger] e[t].0) == Some(e[t].1),
            decreases page.entrys@.len() - i,
        {
            let slot_no = page.entrys[i].0;
            let blob = crate::codec::copy_all(&page.entrys[i].1);
            assert(e[i as int] == (slot_no, blob@));
            match self.store.set(slot_no, blob) {
                Ok(()) => {},
                Err(err) => {
                    return Err(err);
                },
            }
            assert forall|t: int| 0 <= t < i + 1 implies self.storage().buffered(#[trigger] e[t].0) == Some(e[t].1) by {
                if t < i {
                    assert(e[t].0 != e[i as int].0);
                }
            }
            i = i + 1;
        }
        proof {
            assert forall|k: usize| #[trigger] page.map().contains_key(k) implies self.storage().buffered(k) == Some(page.map()[k]) by {
                if forall|t: int| 0 <= t < e.len() ==> #[trigger] e[t].0 != k {
                    lemma_assoc_lacks(e, k);
                }
                let t = choose|t: int| 0 <= t < e.len() && #[trigger] e[t].0 == k;
                lemma_assoc_has(e, t);
            }
        }
        Ok(Some(page.max_version as u64))
    }

    /// Retires the key-value log's segments below `version`, but only once
    /// storage has flushed everything it buffered; returns the retired
    /// segment starts, or nothing when storage still holds buffered writes.
    pub fn retire_log(&mut self, version: u64) -> (r: Option<Vec<u64>>)
        requires
            old(self).wf(),
        ensures
            final(self).wf(),
            r is Some <==> old(self).storage().drained(),
            r is None ==> final(self).log() == old(self).log(),
            final(self).storage() == old(self).storage(),
    {
        if self.store.is_drained() {
            Some(self.wal.checkpoint(version))
        } else {
            None
        }
    }

    /// One pass of the storage flusher (see `Serve::flush_once`).
    pub fn flush_storage(&mut self) -> (r: Result<Option<(Vec<u8>, Vec<u64>)>, Error>)
        requires
            old(self).wf(),
        ensures
            final(self).wf(),
            final(self).log() == old(self).log(),
            final(self).buffer() == old(self).buffer(),
            final(self).slot_qty() == old(self).slot_qty(),
            final(self).cache() == old(self).cache(),
            crate::serve::flushed(old(self).storage(), final(self).storage(), r),
    {
        self.store.flush_once()
    }

    /// The key-value log.
    pub fn kv_log(&self) -> (r: &KvWal)
        ensures
            *r == self.log(),
    {
        &self.wal
    }

    /// The storage layer.
    pub fn store(&self) -> (r: &Serve)
        ensures
            *r == self.storage(),
    {
        &self.store
    }
}

/// A read of a key the cache does not hold, from a slot whose buffered blob
/// was encoded at `t` from pairs `m`: the key's value when `m` holds it live
/// at `t` and at `now`, else nothing.
pub proof fn lemma_read_from_slot(kv: HashKv, key: Seq<u8>, b: Seq<u8>, m: Map<Seq<u8>, (Seq<u8>, u64)>, t: u64, now: u64)
    requires
        !kv.cache().contains_key(key),
        kv.buffer().value(kv.slot_of(key)) == Some(b),
        encodes(b, m, t),
    ensures
        kv.read(key, now) == (if m.contains_key(key) && !expired(m[key].1, t) && !expired(m[key].1, now) {
            Some(m[key].0)
        } else {
            None::<Seq<u8>>
        }),
{
    crate::slot::lemma_read_encoded(b, m, t, key, now);
}

/// What a later write to a slot starts from, when the slot's buffered blob
/// was encoded at `t` from pairs `m`: the pairs of `m` live at `t` and at
/// `now`.
pub proof fn lemma_loaded_from_slot(kv: HashKv, slot: usize, b: Seq<u8>, m: Map<Seq<u8>, (Seq<u8>, u64)>, t: u64, now: u64, key: Seq<u8>)
    requires
        kv.buffer().value(slot) == Some(b),
        encodes(b, m, t),
    ensures
        kv.loaded(slot, now).contains_key(key) == (m.contains_key(key) && !expired(m[key].1, t) && !expired(m[key].1, now)),
        kv.loaded(slot, now).contains_key(key) ==> kv.loaded(slot, now)[key] == m[key],
{
    crate::slot::lemma_read_encoded(b, m, t, key, now);
}

/// A read right after `set(key, v)` gives `v`, at any time.
pub proof fn lemma_get_after_set(kv: HashKv, key: Seq<u8>, v: Seq<u8>, now: u64)
    requires
        kv.cache().contains_key(key),
        kv.cache()[key] == (v, 0u64),
    ensures
        kv.read(key, now) == Some(v),
{
}

/// A read right after `del(key)` gives nothing.
pub proof fn lemma_get_after_del(kv: HashKv, key: Seq<u8>, now: u64)
    requires
        kv.cache().contains_key(key),
        kv.cache()[key] == (Seq::<u8>::empty(), EXPIRE_DEL),
    ensures
        kv.read(key, now) is None,
{
}

/// A read more than `d` seconds after `setnx(key, v, d)` at time `t` gives
/// nothing.
pub proof fn lemma_get_after_expiry(kv: HashKv, key: Seq<u8>, v: Seq<u8>, t: u64, d: u64, now: u64)
    requires
        kv.cache().contains_key(key),
        kv.cache()[key] == (v, expiry_of(Some(d), t)),
        t + d > 0,
        now > t + d,
    ensures
        kv.read(key, now) is None,
{
}

} // verus!
