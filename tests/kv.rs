use lru::LruCache;
use mineral::bitmap::BitMap;
use mineral::config::{KvConfig, StorageConfig};
use mineral::datablock::DataBlock;
use mineral::error::Error;
use mineral::hash::HashIndex;
use mineral::hashkv::HashKv;
use mineral::kvwal::{KvWal, KvWalEntry, OP_DEL, OP_SET};
use mineral::mainblock::MainBlock;
use mineral::serve::Serve;
use mineral::slot::{Slot, SlotEntry, EXPIRE_DEL};
use mineral::wal::Wal;
use std::hash::{Hash, Hasher};
use std::num::NonZeroUsize;

fn conf() -> KvConfig {
    KvConfig {
        storage: StorageConfig {
            path: "kv-data".to_string(),
            block_size: 1024,
            page_max_cap: 1024 * 1024 * 50,
        },
        wal_path: "kv-log".to_string(),
        cache_cap: 1024 * 1024 * 50,
        cbf_cap: 1024 * 1024 * 50,
        slot_qty: 1024,
    }
}

fn kv_with(conf: &KvConfig) -> HashKv {
    let pool = DataBlock::new(vec![], BitMap::new(vec![]), conf.storage.block_size, true);
    let mb = MainBlock::new(vec![], 1024, pool);
    let store = Serve::new(mb, Wal::new(vec![]), conf.storage.page_max_cap);
    HashKv::new(store, KvWal::new(Wal::new(vec![])), conf).unwrap()
}

#[test]
fn hash_test_set() {
    let mut kv = kv_with(&conf());
    let key = "foo".as_bytes().to_vec();
    let val = "bar".as_bytes().to_vec();
    kv.set(&key, &val).unwrap();
    assert_eq!(kv.get(&key).unwrap(), val);

    let old_val = kv.del(&key).unwrap();
    assert_eq!(old_val.unwrap(), val);
    let new_val = kv.get(&key);
    assert!(new_val.is_none());

    let now = 1_700_000_000;
    kv.setnx_at(&key, &val, Some(4), now).unwrap();
    assert_eq!(kv.get_at(&key, now).unwrap(), val);
    assert_eq!(kv.get_at(&key, now + 5), None);
}

#[test]
fn reads_fall_back_to_the_buffer_and_storage() {
    let mut small = conf();
    small.cache_cap = 1;
    let mut kv = kv_with(&small);
    let (a, b) = (b"alpha".to_vec(), b"beta".to_vec());
    kv.set(&a, &b"1".to_vec()).unwrap();
    kv.set(&b, &b"2".to_vec()).unwrap();
    // the cache holds one entry: "alpha" comes from its slot in the buffer
    assert_eq!(kv.get(&a), Some(b"1".to_vec()));
    assert_eq!(kv.get(&b), Some(b"2".to_vec()));
    // after a flush the slots live in storage
    while kv.flush_once().unwrap().is_some() {}
    let _ = kv.flush_once();
    while kv.flush_once().unwrap().is_some() {}
    while kv.flush_storage().unwrap().is_some() {}
    let _ = kv.flush_storage();
    while kv.flush_storage().unwrap().is_some() {}
    assert_eq!(kv.get(&a), Some(b"1".to_vec()));
    assert_eq!(kv.get(&b), Some(b"2".to_vec()));
}

#[test]
fn log_is_retired_only_after_storage_drains() {
    let mut kv = kv_with(&conf());
    kv.set(&b"a".to_vec(), &b"1".to_vec()).unwrap();
    assert!(kv.flush_once().unwrap().is_none());
    let v = kv.flush_once().unwrap().unwrap();
    assert_eq!(v, 1);
    // storage still buffers the slot blob
    assert!(kv.retire_log(v).is_none());
    while kv.flush_storage().unwrap().is_some() {}
    let _ = kv.flush_storage().unwrap();
    while kv.flush_storage().unwrap().is_some() {}
    assert!(kv.storage_drained());
    assert!(kv.retire_log(v).is_some());
    assert_eq!(kv.get(&b"a".to_vec()), Some(b"1".to_vec()));
}

#[test]
fn deleted_key_stays_deleted_when_the_cache_forgets_it() {
    let mut small = conf();
    small.cache_cap = 1;
    let mut kv = kv_with(&small);
    let k = b"gone".to_vec();
    kv.set(&k, &b"v".to_vec()).unwrap();
    while kv.flush_once().unwrap().is_some() {}
    let _ = kv.flush_once();
    while kv.flush_storage().unwrap().is_some() {}
    let _ = kv.flush_storage();
    while kv.flush_storage().unwrap().is_some() {}
    assert_eq!(kv.del(&k).unwrap(), Some(b"v".to_vec()));
    // another key pushes the tombstone out of the one-entry cache
    kv.set(&b"other".to_vec(), &b"x".to_vec()).unwrap();
    assert_eq!(kv.get(&k), None);
}

#[test]
fn restart_replays_the_key_value_log() {
    let c = conf();
    let pool = DataBlock::new(vec![], BitMap::new(vec![]), 1024, true);
    let mb = MainBlock::new(vec![], 1024, pool);
    let store = Serve::new(mb, Wal::new(vec![]), 1024);
    let mut log = KvWal::new(Wal::new(vec![]));
    log.set(&b"k1".to_vec(), &b"v1".to_vec(), 0).unwrap();
    log.set(&b"k2".to_vec(), &b"v2".to_vec(), 0).unwrap();
    log.del(&b"k1".to_vec()).unwrap();
    let mut kv = HashKv::new(store, log, &c).unwrap();
    assert_eq!(kv.get(&b"k2".to_vec()), Some(b"v2".to_vec()));
    assert_eq!(kv.get(&b"k1".to_vec()), None);
}

#[test]
fn slot_blob_round_trip() {
    let mut slot = Slot::empty(3);
    assert!(slot.set(&b"k".to_vec(), &b"value".to_vec(), 0).is_none());
    assert!(slot.set(&b"old".to_vec(), &b"x".to_vec(), 10).is_none());
    let blob = slot.encode_at(5).unwrap();
    assert_eq!(
        &blob[..26],
        &[0, 0, 0, 0, 0, 0, 0, 26, 0, 0, 0, 0, 0, 0, 0, 0, 0, 0, 0, 1, b'k', b'v', b'a', b'l', b'u', b'e']
    );
    let back = Slot::new_at(3, &blob, 5).unwrap();
    assert_eq!(back.get(&b"k".to_vec()).unwrap().value, b"value".to_vec());
    assert_eq!(back.get(&b"old".to_vec()).unwrap().expires_at, 10);
    // once expired, an entry is neither encoded nor decoded
    assert_eq!(slot.encode_at(11).unwrap().len(), 26);
    assert!(Slot::new_at(3, &blob, 11).unwrap().get(&b"old".to_vec()).is_none());
}

#[test]
fn slot_set_del_and_soft_delete() {
    let mut slot = Slot::empty(0);
    slot.set(&b"a".to_vec(), &b"1".to_vec(), 0);
    let prev = slot.set(&b"a".to_vec(), &b"2".to_vec(), 0).unwrap();
    assert_eq!(prev.value, b"1".to_vec());
    let soft = slot._del_soft(&b"a".to_vec()).unwrap();
    assert_eq!(soft.value, b"2".to_vec());
    assert_eq!(slot.get(&b"a".to_vec()).unwrap().expires_at, EXPIRE_DEL);
    assert_eq!(slot.del(&b"a".to_vec()).unwrap().value, b"2".to_vec());
    assert!(slot.get(&b"a".to_vec()).is_none());
    assert!(slot.del(&b"a".to_vec()).is_none());
}

#[test]
fn malformed_slot_blob_fails() {
    let mut blob = vec![0u8; 21];
    blob[7] = 200;
    assert!(matches!(Slot::new_at(0, &blob, 0), Err(Error::SlotDecodeFailed)));
    // twenty bytes or fewer are passed over
    assert!(Slot::new_at(0, &vec![0u8; 20], 0).is_ok());
}

#[test]
fn slot_entry_expiry() {
    let e = SlotEntry::new(&vec![1], 100);
    assert!(!e.has_expired_at(100));
    assert!(e.has_expired_at(101));
    assert!(!SlotEntry::new(&vec![1], 0).has_expired());
}

#[test]
fn kv_wal_entry_round_trip() {
    let e = KvWalEntry::new(OP_SET, &b"key".to_vec(), &b"val".to_vec(), 9);
    let bytes = e.encode();
    assert_eq!(bytes, vec![1, 0, 0, 0, 0, 0, 0, 0, 9, 0, 0, 0, 3, b'k', b'e', b'y', b'v', b'a', b'l']);
    let back = KvWalEntry::decode(&bytes).unwrap();
    assert_eq!(back.op, OP_SET);
    assert_eq!(back.key, b"key".to_vec());
    assert_eq!(back.val, b"val".to_vec());
    assert_eq!(back.header.expires_at, 9);
    let del = KvWalEntry::decode(&KvWalEntry::new(OP_DEL, &b"key".to_vec(), &vec![], 0).encode()).unwrap();
    assert_eq!(del.op, OP_DEL);
    assert!(del.val.is_empty());
    assert!(matches!(KvWalEntry::decode(&vec![1, 2]), Err(Error::InvalidWalData)));
}

#[test]
fn slot_index_folds_the_hash() {
    assert_eq!(HashIndex::index_of_hash(0x40000 | 5, 1024), 4);
    assert_eq!(HashIndex::index_of_hash(u64::MAX, 16), 0);
    let key = b"foo".to_vec();
    let i = HashIndex::calculate_index(&key, 1024);
    assert!(i < 1024);
    assert_eq!(i, HashIndex::calculate_index(&key, 1024));
    let mut h = std::hash::DefaultHasher::new();
    key.hash(&mut h);
    assert_eq!(i, HashIndex::index_of_hash(h.finish(), 1024));
}

#[test]
fn mod_test_lru() {
    let mut cache = LruCache::new(NonZeroUsize::new(2).unwrap());
    assert_eq!(None, cache.put(1, "a"));
    assert_eq!(None, cache.put(2, "b"));
    assert_eq!(Some("b"), cache.put(2, "beta"));
    assert_eq!(cache.get(&1), Some(&"a"));
    assert_eq!(cache.get(&2), Some(&"beta"));
}
