//! Hash slots: the key-value pairs that hash to one slot, and their blob.
//!
//! A slot blob is a sequence of entries, each
//! `tot_len:8 | expires_at:8 | key_len:4 | key | value` (big-endian), where
//! `tot_len = 20 + key_len + value_len`.

use vstd::prelude::*;
use crate::codec::{
    copy_all, copy_range, extend_range, push_u32_be, push_u64_be, read_u32_be, read_u64_be,
    u32_from_be, u32_to_be, u64_from_be, u64_to_be,
};
use crate::error::Error;

verus! {

/// The expiry that marks a soft-deleted entry.
pub const EXPIRE_DEL: u64 = 1;

/// Whether an entry that expires at `exp` is gone at `now`: the soft-delete
/// mark always is; 0 never expires.
pub open spec fn expired(exp: u64, now: u64) -> bool {
    exp == EXPIRE_DEL || (exp > 0 && now > exp)
}

/// A value and the time it expires at, in Unix seconds (0: never).
pub struct SlotEntry {
    pub expires_at: u64,
    pub value: Vec<u8>,
}

impl SlotEntry {
    pub fn new(val: &Vec<u8>, exp: u64) -> (r: Self)
        ensures
            r.value@ == val@,
            r.expires_at == exp,
    {
        SlotEntry { value: copy_all(val), expires_at: exp }
    }

    /// Whether the entry has expired at `now`.
    pub fn has_expired_at(&self, now: u64) -> (r: bool)
        ensures
            r == expired(self.expires_at, now),
    {
        self.expires_at == EXPIRE_DEL || (self.expires_at > 0 && now > self.expires_at)
    }

    /// Whether the entry has expired by the wall clock; never when it has no
    /// expiry.
    pub fn has_expired(&self) -> (r: bool)
        ensures
            exists|now: u64| r == #[trigger] expired(self.expires_at, now),
            self.expires_at == 0 ==> !r,
            self.expires_at == u64::MAX ==> !r,
    {
        let now = crate::clock::now_secs();
        self.has_expired_at(now)
    }

    fn duplicate(&self) -> (r: Self)
        ensures
            r.value@ == self.value@,
            r.expires_at == self.expires_at,
    {
        SlotEntry::new(&self.value, self.expires_at)
    }
}

/// One entry of a blob: key, value, expiry.
pub type Item = (Seq<u8>, Seq<u8>, u64);

/// The bytes of one blob entry.
pub open spec fn entry_bytes(key: Seq<u8>, val: Seq<u8>, exp: u64) -> Seq<u8> {
    u64_to_be((20 + key.len() + val.len()) as u64) + u64_to_be(exp) + u32_to_be(key.len() as u32)
        + key + val
}

/// The entries of a blob, or none when it is malformed. Twenty bytes or
/// fewer at the end are passed over.
pub open spec fn parse_slot(buf: Seq<u8>) -> Option<Seq<Item>>
    decreases buf.len(),
{
    if buf.len() <= 20 {
        Some(Seq::empty())
    } else {
        let tot = u64_from_be(buf.subrange(0, 8));
        let exp = u64_from_be(buf.subrange(8, 16));
        let kl = u32_from_be(buf.subrange(16, 20));
        if tot <= 20 || tot > buf.len() || 20 + kl > tot {
            None
        } else {
            match parse_slot(buf.skip(tot as int)) {
                None => None,
                Some(rest) => Some(
                    seq![(buf.subrange(20, 20 + kl), buf.subrange(20 + kl, tot as int), exp)]
                        + rest,
                ),
            }
        }
    }
}

/// `m` with every item of `items` that is live at `now` put in, in order.
pub open spec fn put_live(m: Map<Seq<u8>, (Seq<u8>, u64)>, items: Seq<Item>, now: u64) -> Map<
    Seq<u8>,
    (Seq<u8>, u64),
>
    decreases items.len(),
{
    if items.len() == 0 {
        m
    } else {
        let (k, v, e) = items[0];
        let m2 = if expired(e, now) { m } else { m.insert(k, (v, e)) };
        put_live(m2, items.skip(1), now)
    }
}

/// Putting in only live items keeps every entry of `m` that is live at `now`
/// live, and adds only live ones.
pub proof fn lemma_put_live_live(m: Map<Seq<u8>, (Seq<u8>, u64)>, items: Seq<Item>, now: u64)
    requires
        forall|k: Seq<u8>| #[trigger] m.contains_key(k) ==> !expired(m[k].1, now),
    ensures
        forall|k: Seq<u8>|
            #[trigger] put_live(m, items, now).contains_key(k) ==> !expired(
                put_live(m, items, now)[k].1,
                now,
            ),
    decreases items.len(),
{
    if items.len() > 0 {
        let (k, v, e) = items[0];
        let m2 = if expired(e, now) { m } else { m.insert(k, (v, e)) };
        assert forall|k2: Seq<u8>| #[trigger] m2.contains_key(k2) implies !expired(m2[k2].1, now) by {
            if k2 != k {
                assert(m.contains_key(k2));
            }
        }
        lemma_put_live_live(m2, items.skip(1), now);
        assert(put_live(m, items, now) == put_live(m2, items.skip(1), now));
    } else {
        assert(put_live(m, items, now) == m);
    }
}

/// What a read of `key` at `now` finds in the blob `blob`: nothing when the
/// blob is malformed; else the key's live value, if any.
pub open spec fn blob_read(blob: Seq<u8>, key: Seq<u8>, now: u64) -> Option<Option<Seq<u8>>> {
    match parse_slot(blob) {
        None => None,
        Some(items) => {
            let m = put_live(Map::empty(), items, now);
            if m.contains_key(key) { Some(Some(m[key].0)) } else { Some(None) }
        },
    }
}

/// The map of a list of entries with distinct keys.
pub open spec fn map_of(kv: Seq<(Seq<u8>, Seq<u8>, u64)>) -> Map<Seq<u8>, (Seq<u8>, u64)>
    decreases kv.len(),
{
    if kv.len() == 0 {
        Map::empty()
    } else {
        let (k, v, e) = kv.last();
        map_of(kv.drop_last()).insert(k, (v, e))
    }
}

/// The blob of the entries of `kv` that are live at `now`, in order.
pub open spec fn encode_live(kv: Seq<Item>, now: u64) -> Seq<u8>
    decreases kv.len(),
{
    if kv.len() == 0 {
        Seq::empty()
    } else {
        let (k, v, e) = kv[0];
        let rest = encode_live(kv.skip(1), now);
        if expired(e, now) { rest } else { entry_bytes(k, v, e) + rest }
    }
}

/// Whether an entry fits a blob: its key length fits the 4-byte field, its
/// total length the 8-byte one, and key and value are not both empty.
pub open spec fn item_fits(it: Item) -> bool {
    it.0.len() <= u32::MAX && 20 + it.0.len() + it.1.len() <= u64::MAX && it.0.len() + it.1.len() > 0
}

/// The entries of `kv` that are live at `now`, in order.
pub open spec fn live_items(kv: Seq<Item>, now: u64) -> Seq<Item>
    decreases kv.len(),
{
    if kv.len() == 0 {
        Seq::empty()
    } else {
        let rest = live_items(kv.skip(1), now);
        if expired(kv[0].2, now) { rest } else { seq![kv[0]] + rest }
    }
}

/// Decoding the blob of a list of fitting entries gives back its live
/// entries.
pub proof fn lemma_encode_parse(kv: Seq<Item>, now: u64)
    requires
        forall|i: int| 0 <= i < kv.len() ==> item_fits(#[trigger] kv[i]),
    ensures
        parse_slot(encode_live(kv, now)) == Some(live_items(kv, now)),
    decreases kv.len(),
{
    if kv.len() > 0 {
        let rest = kv.skip(1);
        assert forall|i: int| 0 <= i < rest.len() implies item_fits(#[trigger] rest[i]) by {
            assert(rest[i] == kv[i + 1]);
        }
        lemma_encode_parse(rest, now);
        let (k, v, e) = kv[0];
        assert(item_fits(kv[0]));
        if !expired(e, now) {
            let tail = encode_live(rest, now);
            let tot = (20 + k.len() + v.len()) as u64;
            let b = entry_bytes(k, v, e) + tail;
            crate::codec::lemma_u64_be_round_trip(tot);
            crate::codec::lemma_u64_be_round_trip(e);
            crate::codec::lemma_u32_be_round_trip(k.len() as u32);
            assert(b.subrange(0, 8) =~= u64_to_be(tot));
            assert(b.subrange(8, 16) =~= u64_to_be(e));
            assert(b.subrange(16, 20) =~= u32_to_be(k.len() as u32));
            assert(b.skip(tot as int) =~= tail);
            assert(b.subrange(20, 20 + k.len() as int) =~= k);
            assert(b.subrange(20 + k.len() as int, tot as int) =~= v);
            assert(parse_slot(b) == Some(seq![(k, v, e)] + live_items(rest, now)));
        }
    }
}

/// Each entry that survives a filter by liveness is a live entry of the list.
pub proof fn lemma_live_items_from(kv: Seq<Item>, now: u64)
    ensures
        forall|j: int| 0 <= j < live_items(kv, now).len() ==> exists|i: int|
            0 <= i < kv.len() && kv[i] == #[trigger] live_items(kv, now)[j] && !expired(kv[i].2, now),
    decreases kv.len(),
{
    if kv.len() > 0 {
        let rest = kv.skip(1);
        lemma_live_items_from(rest, now);
        let l = live_items(kv, now);
        let lr = live_items(rest, now);
        assert forall|j: int| 0 <= j < l.len() implies exists|i: int|
            0 <= i < kv.len() && kv[i] == #[trigger] l[j] && !expired(kv[i].2, now) by {
            if !expired(kv[0].2, now) && j == 0 {
                assert(kv[0] == l[0]);
            } else {
                let jj = if !expired(kv[0].2, now) { j - 1 } else { j };
                assert(l[j] == lr[jj]);
                let i2 = choose|i: int| 0 <= i < rest.len() && rest[i] == #[trigger] lr[jj] && !expired(rest[i].2, now);
                assert(kv[i2 + 1] == rest[i2]);
            }
        }
    }
}

/// Each live entry of the list survives a filter by liveness.
pub proof fn lemma_live_items_to(kv: Seq<Item>, now: u64)
    ensures
        forall|i: int| 0 <= i < kv.len() && !expired(kv[i].2, now) ==> exists|j: int|
            0 <= j < live_items(kv, now).len() && #[trigger] live_items(kv, now)[j] == kv[i],
    decreases kv.len(),
{
    if kv.len() > 0 {
        let rest = kv.skip(1);
        lemma_live_items_to(rest, now);
        let l = live_items(kv, now);
        let lr = live_items(rest, now);
        assert forall|i: int| 0 <= i < kv.len() && !expired(kv[i].2, now) implies exists|j: int|
            0 <= j < l.len() && #[trigger] l[j] == kv[i] by {
            if i == 0 {
                assert(l[0] == kv[0]);
            } else {
                assert(rest[i - 1] == kv[i]);
                let j2 = choose|j: int| 0 <= j < lr.len() && #[trigger] lr[j] == rest[i - 1];
                if !expired(kv[0].2, now) {
                    assert(l[j2 + 1] == lr[j2]);
                } else {
                    assert(l[j2] == lr[j2]);
                }
            }
        }
    }
}

/// Filtering by liveness keeps keys distinct.
pub proof fn lemma_live_items_distinct(kv: Seq<Item>, now: u64)
    requires
        distinct_keys(kv),
    ensures
        distinct_keys(live_items(kv, now)),
    decreases kv.len(),
{
    if kv.len() > 0 {
        let rest = kv.skip(1);
        assert(distinct_keys(rest)) by {
            assert forall|a: int, b: int| 0 <= a < b < rest.len() implies rest[a].0 != rest[b].0 by {
                assert(rest[a] == kv[a + 1] && rest[b] == kv[b + 1]);
            }
        }
        lemma_live_items_distinct(rest, now);
        lemma_live_items_from(rest, now);
        let l = live_items(kv, now);
        let lr = live_items(rest, now);
        assert forall|a: int, b: int| #![trigger l[a], l[b]] 0 <= a < b < l.len() implies l[a].0 != l[b].0 by {
            if !expired(kv[0].2, now) && a == 0 {
                let i2 = choose|i: int| 0 <= i < rest.len() && rest[i] == #[trigger] lr[b - 1] && !expired(rest[i].2, now);
                assert(l[b] == lr[b - 1]);
                assert(kv[i2 + 1] == rest[i2]);
                assert(kv[0].0 != kv[i2 + 1].0);
            } else {
                let d = if !expired(kv[0].2, now) { 1int } else { 0int };
                assert(l[a] == lr[a - d] && l[b] == lr[b - d]);
            }
        }
    }
}

/// Reading a key from a list of live-filtered entries with distinct keys:
/// its entry if it has one that is live at `now`, nothing otherwise.
pub proof fn lemma_put_live_read(m: Map<Seq<u8>, (Seq<u8>, u64)>, items: Seq<Item>, now: u64, key: Seq<u8>)
    requires
        distinct_keys(items),
    ensures
        (forall|i: int| 0 <= i < items.len() ==> #[trigger] items[i].0 != key) ==> (put_live(m, items, now).contains_key(key) == m.contains_key(key) && (m.contains_key(key) ==> put_live(m, items, now)[key] == m[key])),
        forall|i: int| 0 <= i < items.len() && #[trigger] items[i].0 == key ==> (put_live(m, items, now).contains_key(key) == (!expired(items[i].2, now) || m.contains_key(key))) && (!expired(items[i].2, now) ==> put_live(m, items, now)[key] == (items[i].1, items[i].2)),
    decreases items.len(),
{
    if items.len() > 0 {
        let rest = items.skip(1);
        assert(distinct_keys(rest)) by {
            assert forall|a: int, b: int| 0 <= a < b < rest.len() implies rest[a].0 != rest[b].0 by {
                assert(rest[a] == items[a + 1] && rest[b] == items[b + 1]);
            }
        }
        let (k, v, e) = items[0];
        let m2 = if expired(e, now) { m } else { m.insert(k, (v, e)) };
        lemma_put_live_read(m2, rest, now, key);
        assert(put_live(m, items, now) == put_live(m2, rest, now));
        assert forall|i: int| 0 <= i < items.len() && #[trigger] items[i].0 == key implies (put_live(m, items, now).contains_key(key) == (!expired(items[i].2, now) || m.contains_key(key))) && (!expired(items[i].2, now) ==> put_live(m, items, now)[key] == (items[i].1, items[i].2)) by {
            if i == 0 {
                assert forall|t: int| 0 <= t < rest.len() implies #[trigger] rest[t].0 != key by {
                    assert(rest[t] == items[t + 1]);
                }
            } else {
                assert(rest[i - 1] == items[i]);
                assert(items[0].0 != items[i].0);
            }
        }
        if forall|i: int| 0 <= i < items.len() ==> #[trigger] items[i].0 != key {
            assert(items[0].0 != key);
            assert forall|t: int| 0 <= t < rest.len() implies #[trigger] rest[t].0 != key by {
                assert(rest[t] == items[t + 1]);
            }
        }
    }
}

/// Whether `b` is the blob, encoded at `now`, of entries with distinct keys
/// that fit a blob and whose map is `m`.
pub open spec fn encodes(b: Seq<u8>, m: Map<Seq<u8>, (Seq<u8>, u64)>, now: u64) -> bool {
    exists|items: Seq<Item>|
        #[trigger] encode_live(items, now) == b && distinct_keys(items) && (forall|i: int|
            0 <= i < items.len() ==> item_fits(#[trigger] items[i])) && map_of(items) == m
}

/// A key read at `now2` from a blob encoded at `now` from pairs `m`: its
/// value when `m` holds it and it is live at both times, else nothing.
pub proof fn lemma_read_encoded(b: Seq<u8>, m: Map<Seq<u8>, (Seq<u8>, u64)>, now: u64, key: Seq<u8>, now2: u64)
    requires
        encodes(b, m, now),
    ensures
        blob_read(b, key, now2) == Some(
            if m.contains_key(key) && !expired(m[key].1, now) && !expired(m[key].1, now2) {
                Some(m[key].0)
            } else {
                None::<Seq<u8>>
            },
        ),
        parse_slot(b) is Some,
        put_live(Map::empty(), parse_slot(b)->Some_0, now2).contains_key(key) == (m.contains_key(key)
            && !expired(m[key].1, now) && !expired(m[key].1, now2)),
        put_live(Map::empty(), parse_slot(b)->Some_0, now2).contains_key(key) ==> put_live(
            Map::empty(),
            parse_slot(b)->Some_0,
            now2,
        )[key] == m[key],
{
    let items = choose|items: Seq<Item>|
        #[trigger] encode_live(items, now) == b && distinct_keys(items) && (forall|i: int|
            0 <= i < items.len() ==> item_fits(#[trigger] items[i])) && map_of(items) == m;
    lemma_encode_parse(items, now);
    let l = live_items(items, now);
    lemma_live_items_from(items, now);
    lemma_live_items_to(items, now);
    lemma_live_items_distinct(items, now);
    lemma_put_live_read(Map::empty(), l, now2, key);
    if m.contains_key(key) {
        if forall|i: int| 0 <= i < items.len() ==> #[trigger] items[i].0 != key {
            lemma_map_of_lacks(items, key);
        }
        let i = choose|i: int| 0 <= i < items.len() && #[trigger] items[i].0 == key;
        lemma_map_of_has(items, i);
        if !expired(items[i].2, now) {
            let j = choose|j: int| 0 <= j < l.len() && #[trigger] l[j] == items[i];
            assert(l[j].0 == key);
        } else {
            assert forall|j: int| 0 <= j < l.len() implies #[trigger] l[j].0 != key by {
                let i2 = choose|i2: int| 0 <= i2 < items.len() && items[i2] == #[trigger] l[j] && !expired(items[i2].2, now);
                if l[j].0 == key && i2 != i {
                    if i2 < i { assert(items[i2].0 != items[i].0); } else { assert(items[i].0 != items[i2].0); }
                }
            }
        }
    } else {
        assert forall|j: int| 0 <= j < l.len() implies #[trigger] l[j].0 != key by {
            let i2 = choose|i2: int| 0 <= i2 < items.len() && items[i2] == #[trigger] l[j] && !expired(items[i2].2, now);
            if l[j].0 == key {
                lemma_map_of_has(items, i2);
            }
        }
    }
}

/// The keys of `kv` are distinct.
pub open spec fn distinct_keys(kv: Seq<Item>) -> bool {
    forall|i: int, j: int| #![trigger kv[i], kv[j]] 0 <= i < j < kv.len() ==> kv[i].0 != kv[j].0
}

proof fn lemma_map_of_has(kv: Seq<Item>, i: int)
    requires
        distinct_keys(kv),
        0 <= i < kv.len(),
    ensures
        map_of(kv).contains_key(kv[i].0),
        map_of(kv)[kv[i].0] == (kv[i].1, kv[i].2),
    decreases kv.len(),
{
    if i < kv.len() - 1 {
        let p = kv.drop_last();
        assert(p[i] == kv[i]);
        assert(distinct_keys(p)) by {
            assert forall|a: int, b: int| 0 <= a < b < p.len() implies p[a].0 != p[b].0 by {
                assert(p[a] == kv[a] && p[b] == kv[b]);
            }
        }
        lemma_map_of_has(p, i);
        assert(kv.last() == kv[kv.len() - 1]);
    }
}

proof fn lemma_map_of_lacks(kv: Seq<Item>, k: Seq<u8>)
    requires
        forall|i: int| 0 <= i < kv.len() ==> #[trigger] kv[i].0 != k,
    ensures
        !map_of(kv).contains_key(k),
    decreases kv.len(),
{
    if kv.len() > 0 {
        let p = kv.drop_last();
        assert forall|i: int| 0 <= i < p.len() implies #[trigger] p[i].0 != k by {
            assert(p[i] == kv[i]);
        }
        lemma_map_of_lacks(p, k);
        assert(kv.last() == kv[kv.len() - 1]);
    }
}

proof fn lemma_map_of_update(kv: Seq<Item>, i: int, item: Item)
    requires
        distinct_keys(kv),
        0 <= i < kv.len(),
        item.0 == kv[i].0,
    ensures
        map_of(kv.update(i, item)) == map_of(kv).insert(item.0, (item.1, item.2)),
    decreases kv.len(),
{
    let n = kv.update(i, item);
    if i == kv.len() - 1 {
        assert(n.drop_last() =~= kv.drop_last());
        assert(map_of(kv.drop_last()).insert(kv.last().0, (kv.last().1, kv.last().2)).insert(item.0, (item.1, item.2)) =~= map_of(kv.drop_last()).insert(item.0, (item.1, item.2)));
    } else {
        let p = kv.drop_last();
        assert(distinct_keys(p)) by {
            assert forall|a: int, b: int| 0 <= a < b < p.len() implies p[a].0 != p[b].0 by {
                assert(p[a] == kv[a] && p[b] == kv[b]);
            }
        }
        assert(n.drop_last() =~= p.update(i, item));
        lemma_map_of_update(p, i, item);
        assert(kv[i] == p[i]);
        assert(kv.last() == kv[kv.len() - 1]);
        assert(kv.last().0 != item.0);
        assert(map_of(n) =~= map_of(kv).insert(item.0, (item.1, item.2)));
    }
}

proof fn lemma_map_of_push(kv: Seq<Item>, item: Item)
    ensures
        map_of(kv.push(item)) == map_of(kv).insert(item.0, (item.1, item.2)),
{
    assert(kv.push(item).drop_last() =~= kv);
}

proof fn lemma_map_of_remove(kv: Seq<Item>, i: int)
    requires
        distinct_keys(kv),
        0 <= i < kv.len(),
    ensures
        map_of(kv.remove(i)) == map_of(kv).remove(kv[i].0),
    decreases kv.len(),
{
    let n = kv.remove(i);
    let k = kv[i].0;
    if i == kv.len() - 1 {
        assert(n =~= kv.drop_last());
        assert forall|j: int| 0 <= j < n.len() implies #[trigger] n[j].0 != k by {
            assert(n[j] == kv[j]);
        }
        lemma_map_of_lacks(n, k);
        assert(map_of(n) =~= map_of(kv).remove(k));
    } else {
        let p = kv.drop_last();
        assert(distinct_keys(p)) by {
            assert forall|a: int, b: int| 0 <= a < b < p.len() implies p[a].0 != p[b].0 by {
                assert(p[a] == kv[a] && p[b] == kv[b]);
            }
        }
        assert(n.drop_last() =~= p.remove(i));
        lemma_map_of_remove(p, i);
        assert(p[i] == kv[i]);
        assert(n.last() == kv.last());
        assert(kv.last() == kv[kv.len() - 1]);
        assert(kv.last().0 != k);
        assert(map_of(n) =~= map_of(kv).remove(k));
    }
}

/// The pairs of one hash slot, keys distinct.
pub struct Slot {
    pub slot_no: usize,
    slot_kv: Vec<(Vec<u8>, SlotEntry)>,
}

impl Slot {
    /// The entries, in the order they were first put in.
    pub closed spec fn items(&self) -> Seq<Item> {
        self.slot_kv@.map_values(|e: (Vec<u8>, SlotEntry)| (e.0@, e.1.value@, e.1.expires_at))
    }

    /// The pairs of the slot: key to value and expiry.
    pub open spec fn kv(&self) -> Map<Seq<u8>, (Seq<u8>, u64)> {
        map_of(self.items())
    }

    pub open spec fn wf(&self) -> bool {
        &&& distinct_keys(self.items())
        &&& forall|i: int| 0 <= i < self.items().len() ==> item_fits(#[trigger] self.items()[i])
    }

    /// The slot's number.
    pub closed spec fn number(&self) -> usize {
        self.slot_no
    }

    /// An empty slot.
    pub fn empty(slot_no: usize) -> (r: Self)
        ensures
            r.wf(),
            r.number() == slot_no,
            r.items().len() == 0,
            r.kv() == Map::<Seq<u8>, (Seq<u8>, u64)>::empty(),
    {
        let r = Slot { slot_no, slot_kv: Vec::new() };
        assert(r.items() =~= Seq::empty());
        r
    }

    /// The slot held by the blob `bytes` at time `now`: its entries that have
    /// not expired, a later one replacing an earlier one of the same key.
    pub fn new_at(slot_no: usize, bytes: &Vec<u8>, now: u64) -> (r: Result<Slot, Error>)
        ensures
            match parse_slot(bytes@) {
                Some(items) => r is Ok && r->Ok_0.wf() && r->Ok_0.number() == slot_no
                    && r->Ok_0.kv() == put_live(Map::empty(), items, now),
                None => r == Err::<Slot, Error>(Error::SlotDecodeFailed),
            },
    {
        let mut slot = Slot::empty(slot_no);
        match slot.decode_kv_at(bytes, now) {
            Ok(()) => Ok(slot),
            Err(e) => Err(e),
        }
    }

    /// The slot held by the blob `bytes` now, by the wall clock.
    pub fn new(slot_no: usize, bytes: &Vec<u8>) -> (r: Result<Slot, Error>)
        ensures
            match parse_slot(bytes@) {
                Some(items) => r is Ok && r->Ok_0.wf() && r->Ok_0.number() == slot_no && exists|now: u64|
                    r->Ok_0.kv() == #[trigger] put_live(Map::empty(), items, now),
                None => r == Err::<Slot, Error>(Error::SlotDecodeFailed),
            },
    {
        let now = crate::clock::now_secs();
        Self::new_at(slot_no, bytes, now)
    }

    fn find(&self, key: &Vec<u8>) -> (r: Option<usize>)
        requires
            self.wf(),
        ensures
            match r {
                Some(i) => i < self.items().len() && self.items()[i as int].0 == key@,
                None => forall|i: int| 0 <= i < self.items().len() ==> #[trigger] self.items()[i].0 != key@,
            },
    {
        let mut i: usize = 0;
        while i < self.slot_kv.len()
            invariant
                i <= self.slot_kv@.len(),
                forall|j: int| 0 <= j < i ==> #[trigger] self.items()[j].0 != key@,
            decreases self.slot_kv@.len() - i,
        {
            assert(self.items()[i as int].0 == self.slot_kv@[i as int].0@);
            if crate::codec::bytes_eq(&self.slot_kv[i].0, key) {
                return Some(i);
            }
            i = i + 1;
        }
        None
    }

    /// The entry of `key`, if any.
    pub fn get(&self, key: &Vec<u8>) -> (r: Option<SlotEntry>)
        requires
            self.wf(),
        ensures
            match r {
                Some(e) => self.kv().contains_key(key@) && self.kv()[key@] == (e.value@, e.expires_at),
                None => !self.kv().contains_key(key@),
            },
    {
        match self.find(key) {
            Some(i) => {
                proof {
                    lemma_map_of_has(self.items(), i as int);
                }
                Some(self.slot_kv[i].1.duplicate())
            },
            None => {
                proof {
                    lemma_map_of_lacks(self.items(), key@);
                }
                None
            },
        }
    }

    /// Puts `key` with `val` and expiry `expire`; returns the entry it replaces.
    pub fn set(&mut self, key: &Vec<u8>, val: &Vec<u8>, expire: u64) -> (r: Option<SlotEntry>)
        requires
            old(self).wf(),
            item_fits((key@, val@, expire)),
        ensures
            final(self).wf(),
            final(self).number() == old(self).number(),
            final(self).kv() == old(self).kv().insert(key@, (val@, expire)),
            match r {
                Some(e) => old(self).kv().contains_key(key@) && old(self).kv()[key@] == (e.value@, e.expires_at),
                None => !old(self).kv().contains_key(key@),
            },
    {
        let ghost items = self.items();
        let entry = SlotEntry::new(val, expire);
        match self.find(key) {
            Some(i) => {
                proof {
                    lemma_map_of_has(items, i as int);
                    lemma_map_of_update(items, i as int, (key@, val@, expire));
                }
                let prev = self.slot_kv[i].1.duplicate();
                self.slot_kv.set(i, (copy_all(key), entry));
                assert(self.items() =~= items.update(i as int, (key@, val@, expire)));
                assert(distinct_keys(self.items())) by {
                    assert forall|a: int, b: int| 0 <= a < b < self.items().len() implies self.items()[a].0 != self.items()[b].0 by {
                        assert(items[a].0 != items[b].0);
                    }
                }
                Some(prev)
            },
            None => {
                proof {
                    lemma_map_of_lacks(items, key@);
                    lemma_map_of_push(items, (key@, val@, expire));
                }
                self.slot_kv.push((copy_all(key), entry));
                assert(self.items() =~= items.push((key@, val@, expire)));
                assert(distinct_keys(self.items())) by {
                    assert forall|a: int, b: int| 0 <= a < b < self.items().len() implies self.items()[a].0 != self.items()[b].0 by {
                        if b < items.len() {
                            assert(items[a].0 != items[b].0);
                        } else {
                            assert(items[a].0 != key@);
                        }
                    }
                }
                None
            },
        }
    }

    /// Removes `key`; returns its entry.
    pub fn del(&mut self, key: &Vec<u8>) -> (r: Option<SlotEntry>)
        requires
            old(self).wf(),
        ensures
            final(self).wf(),
            final(self).number() == old(self).number(),
            final(self).kv() == old(self).kv().remove(key@),
            match r {
                Some(e) => old(self).kv().contains_key(key@) && old(self).kv()[key@] == (e.value@, e.expires_at),
                None => !old(self).kv().contains_key(key@),
            },
    {
        let ghost items = self.items();
        match self.find(key) {
            Some(i) => {
                proof {
                    lemma_map_of_has(items, i as int);
                    lemma_map_of_remove(items, i as int);
                }
                let (_, prev) = self.slot_kv.remove(i);
                assert(self.items() =~= items.remove(i as int));
                assert(distinct_keys(self.items())) by {
                    assert forall|a: int, b: int| 0 <= a < b < self.items().len() implies self.items()[a].0 != self.items()[b].0 by {
                        let a2 = if a < i { a } else { a + 1 };
                        let b2 = if b < i { b } else { b + 1 };
                        assert(items[a2].0 != items[b2].0);
                    }
                }
                Some(prev)
            },
            None => {
                proof {
                    lemma_map_of_lacks(items, key@);
                    assert(map_of(items).remove(key@) =~= map_of(items));
                }
                None
            },
        }
    }

    /// Marks the entry of `key` deleted by giving it the soft-delete expiry;
    /// returns the entry it replaces.
    pub fn _del_soft(&mut self, key: &Vec<u8>) -> (r: Option<SlotEntry>)
        requires
            old(self).wf(),
        ensures
            final(self).wf(),
            final(self).number() == old(self).number(),
            old(self).kv().contains_key(key@) ==> final(self).kv() == old(self).kv().insert(
                key@,
                (old(self).kv()[key@].0, EXPIRE_DEL),
            ) && r is Some && old(self).kv()[key@] == (r->Some_0.value@, r->Some_0.expires_at),
            !old(self).kv().contains_key(key@) ==> final(self).kv() == old(self).kv() && r is None,
    {
        match self.find(key) {
            Some(i) => {
                proof {
                    lemma_map_of_has(self.items(), i as int);
                    assert(item_fits(self.items()[i as int]));
                }
                let value = copy_all(&self.slot_kv[i].1.value);
                self.set(key, &value, EXPIRE_DEL)
            },
            None => {
                proof {
                    lemma_map_of_lacks(self.items(), key@);
                }
                None
            },
        }
    }

    /// Puts the entries of the blob `buf` that are live at `now`.
    pub fn decode_kv_at(&mut self, buf: &Vec<u8>, now: u64) -> (r: Result<(), Error>)
        requires
            old(self).wf(),
        ensures
            final(self).wf(),
            final(self).number() == old(self).number(),
            match parse_slot(buf@) {
                Some(items) => r is Ok && final(self).kv() == put_live(old(self).kv(), items, now),
                None => r == Err::<(), Error>(Error::SlotDecodeFailed),
            },
    {
        let len = buf.len();
        let mut at: usize = 0;
        assert(buf@.skip(0) =~= buf@);
        while len - at > 20
            invariant
                at <= len,
                len == buf@.len(),
                self.wf(),
                self.slot_no == old(self).number(),
                match parse_slot(buf@) {
                    Some(items) => parse_slot(buf@.skip(at as int)) is Some && put_live(
                        self.kv(),
                        parse_slot(buf@.skip(at as int))->Some_0,
                        now,
                    ) == put_live(old(self).kv(), items, now),
                    None => parse_slot(buf@.skip(at as int)) is None,
                },
            decreases len - at,
        {
            let ghost rest = buf@.skip(at as int);
            assert(rest.subrange(0, 8) =~= buf@.subrange(at as int, at + 8));
            assert(rest.subrange(8, 16) =~= buf@.subrange(at + 8, at + 16));
            assert(rest.subrange(16, 20) =~= buf@.subrange(at + 16, at + 20));
            let tot = read_u64_be(buf, at);
            let exp = read_u64_be(buf, at + 8);
            let kl = read_u32_be(buf, at + 16);
            if tot <= 20 || tot > (len - at) as u64 || 20 + kl as u64 > tot {
                return Err(Error::SlotDecodeFailed);
            }
            let t = tot as usize;
            let key_end = at + 20 + kl as usize;
            let key = copy_range(buf, at + 20, key_end);
            let val = copy_range(buf, key_end, at + t);
            assert(rest.skip(tot as int) =~= buf@.skip(at + t));
            assert(key@ =~= rest.subrange(20, 20 + kl));
            assert(val@ =~= rest.subrange(20 + kl, tot as int));
            let ghost m0 = self.kv();
            if !(exp == EXPIRE_DEL || (exp > 0 && now > exp)) {
                self.set(&key, &val, exp);
            }
            proof {
                let tail = parse_slot(rest.skip(tot as int));
                if tail is Some {
                    let item = (key@, val@, exp);
                    let all = seq![item] + tail->Some_0;
                    assert(parse_slot(rest) == Some(all));
                    assert(all[0] == item);
                    assert(all.skip(1) =~= tail->Some_0);
                    assert(put_live(m0, all, now) == put_live(self.kv(), tail->Some_0, now));
                }
            }
            at = at + t;
        }
        assert(parse_slot(buf@.skip(at as int)) == Some(Seq::<Item>::empty()));
        Ok(())
    }

    /// Puts the entries of the blob `buf` that are live by the wall clock.
    pub fn decode_kv(&mut self, buf: &Vec<u8>) -> (r: Result<(), Error>)
        requires
            old(self).wf(),
        ensures
            final(self).wf(),
            final(self).number() == old(self).number(),
            match parse_slot(buf@) {
                Some(items) => r is Ok && exists|now: u64|
                    final(self).kv() == #[trigger] put_live(old(self).kv(), items, now),
                None => r == Err::<(), Error>(Error::SlotDecodeFailed),
            },
    {
        let now = crate::clock::now_secs();
        self.decode_kv_at(buf, now)
    }

    /// The blob of the entries live at `now`, in the slot's order. Fails
    /// when a key is longer than `u32::MAX` bytes.
    pub fn encode_at(&self, now: u64) -> (r: Result<Vec<u8>, Error>)
        ensures
            match r {
                Ok(b) => b@ == encode_live(self.items(), now),
                Err(e) => e == Error::SlotEncodeFailed,
            },
            (forall|i: int| 0 <= i < self.items().len() ==> item_fits(#[trigger] self.items()[i]))
                ==> r is Ok,
    {
        let mut buf: Vec<u8> = Vec::new();
        let ghost items = self.items();
        assert(items.skip(0) =~= items);
        let mut k: usize = 0;
        while k < self.slot_kv.len()
            invariant
                k <= items.len(),
                items == self.items(),
                buf@ + encode_live(items.skip(k as int), now) == encode_live(items, now),
            decreases items.len() - k,
        {
            let ghost it = items[k as int];
            assert(it == (self.slot_kv@[k as int].0@, self.slot_kv@[k as int].1.value@, self.slot_kv@[k as int].1.expires_at));
            assert(items.skip(k as int).skip(1) =~= items.skip(k + 1));
            let key = &self.slot_kv[k].0;
            let entry = &self.slot_kv[k].1;
            if !entry.has_expired_at(now) {
                if key.len() as u64 > 0xffff_ffffu64 || entry.value.len() as u64 > u64::MAX - 20
                    - key.len() as u64 {
                    return Err(Error::SlotEncodeFailed);
                }
                let tot = 20u64 + key.len() as u64 + entry.value.len() as u64;
                let ghost before = buf@;
                push_u64_be(&mut buf, tot);
                push_u64_be(&mut buf, entry.expires_at);
                push_u32_be(&mut buf, key.len() as u32);
                extend_range(&mut buf, key, 0, key.len());
                extend_range(&mut buf, &entry.value, 0, entry.value.len());
                assert(key@.subrange(0, key@.len() as int) =~= key@);
                assert(entry.value@.subrange(0, entry.value@.len() as int) =~= entry.value@);
                assert(buf@ =~= before + entry_bytes(it.0, it.1, it.2));
            }
            k = k + 1;
        }
        assert(items.skip(k as int) =~= Seq::<Item>::empty());
        Ok(buf)
    }

    /// The blob of the entries live by the wall clock. Fails when a key is
    /// longer than `u32::MAX` bytes.
    pub fn encode(&self) -> (r: Result<Vec<u8>, Error>)
        ensures
            match r {
                Ok(b) => exists|now: u64| b@ == #[trigger] encode_live(self.items(), now),
                Err(e) => e == Error::SlotEncodeFailed,
            },
            (forall|i: int| 0 <= i < self.items().len() ==> item_fits(#[trigger] self.items()[i]))
                ==> r is Ok,
    {
        let now = crate::clock::now_secs();
        self.encode_at(now)
    }
}

} // verus!
