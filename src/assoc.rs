//! Lists of key-value pairs with distinct keys, read as maps.

use vstd::prelude::*;

verus! {

/// The map of a list of pairs: a later pair wins over an earlier one.
pub open spec fn assoc_map<K, V>(kv: Seq<(K, V)>) -> Map<K, V>
    decreases kv.len(),
{
    if kv.len() == 0 {
        Map::empty()
    } else {
        assoc_map(kv.drop_last()).insert(kv.last().0, kv.last().1)
    }
}

/// The keys of `kv` are distinct.
pub open spec fn distinct<K, V>(kv: Seq<(K, V)>) -> bool {
    forall|i: int, j: int| #![trigger kv[i], kv[j]] 0 <= i < j < kv.len() ==> kv[i].0 != kv[j].0
}

proof fn lemma_distinct_prefix<K, V>(kv: Seq<(K, V)>)
    requires
        distinct(kv),
        kv.len() > 0,
    ensures
        distinct(kv.drop_last()),
{
    let p = kv.drop_last();
    assert forall|a: int, b: int| 0 <= a < b < p.len() implies p[a].0 != p[b].0 by {
        assert(p[a] == kv[a] && p[b] == kv[b]);
    }
}

pub proof fn lemma_assoc_has<K, V>(kv: Seq<(K, V)>, i: int)
    requires
        distinct(kv),
        0 <= i < kv.len(),
    ensures
        assoc_map(kv).contains_key(kv[i].0),
        assoc_map(kv)[kv[i].0] == kv[i].1,
    decreases kv.len(),
{
    if i < kv.len() - 1 {
        let p = kv.drop_last();
        lemma_distinct_prefix(kv);
        assert(p[i] == kv[i]);
        lemma_assoc_has(p, i);
        assert(kv.last() == kv[kv.len() - 1]);
    }
}

pub proof fn lemma_assoc_lacks<K, V>(kv: Seq<(K, V)>, k: K)
    requires
        forall|i: int| 0 <= i < kv.len() ==> #[trigger] kv[i].0 != k,
    ensures
        !assoc_map(kv).contains_key(k),
    decreases kv.len(),
{
    if kv.len() > 0 {
        let p = kv.drop_last();
        assert forall|i: int| 0 <= i < p.len() implies #[trigger] p[i].0 != k by {
            assert(p[i] == kv[i]);
        }
        lemma_assoc_lacks(p, k);
        assert(kv.last() == kv[kv.len() - 1]);
    }
}

pub proof fn lemma_assoc_update<K, V>(kv: Seq<(K, V)>, i: int, v: V)
    requires
        distinct(kv),
        0 <= i < kv.len(),
    ensures
        distinct(kv.update(i, (kv[i].0, v))),
        assoc_map(kv.update(i, (kv[i].0, v))) == assoc_map(kv).insert(kv[i].0, v),
    decreases kv.len(),
{
    let k = kv[i].0;
    let n = kv.update(i, (k, v));
    assert forall|a: int, b: int| 0 <= a < b < n.len() implies n[a].0 != n[b].0 by {
        assert(kv[a].0 != kv[b].0);
    }
    if i == kv.len() - 1 {
        assert(n.drop_last() =~= kv.drop_last());
        assert(assoc_map(n) =~= assoc_map(kv).insert(k, v));
    } else {
        let p = kv.drop_last();
        lemma_distinct_prefix(kv);
        assert(n.drop_last() =~= p.update(i, (k, v)));
        assert(p[i] == kv[i]);
        lemma_assoc_update(p, i, v);
        assert(kv.last() == kv[kv.len() - 1]);
        assert(kv.last().0 != k);
        assert(assoc_map(n) =~= assoc_map(kv).insert(k, v));
    }
}

pub proof fn lemma_assoc_push<K, V>(kv: Seq<(K, V)>, k: K, v: V)
    requires
        distinct(kv),
        !assoc_map(kv).contains_key(k),
    ensures
        distinct(kv.push((k, v))),
        assoc_map(kv.push((k, v))) == assoc_map(kv).insert(k, v),
{
    let n = kv.push((k, v));
    assert(n.drop_last() =~= kv);
    assert forall|a: int, b: int| 0 <= a < b < n.len() implies n[a].0 != n[b].0 by {
        if b == kv.len() {
            if n[a].0 == k {
                lemma_assoc_has(kv, a);
            }
        } else {
            assert(kv[a].0 != kv[b].0);
        }
    }
}

} // verus!
