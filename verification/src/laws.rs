//! What holds of every cache, stated over the model and proved from the
//! definitions of its operations.

use crate::model::{
    ascending, bump, eviction_order, frequency_limit, lemma_insert_inv, lemma_occupied,
    lemma_place_of, lemma_remove_inv, listed, place_of, populated, Bucket, CacheView, Entry,
};
use vstd::prelude::*;

verus! {

/// The empty cache satisfies the invariant.
pub proof fn lemma_fresh_keeps_invariant(capacity: nat)
    ensures
        CacheView::fresh(capacity).inv(),
{
}

/// Dropping everything keeps the invariant.
pub proof fn lemma_clear_keeps_invariant(m: CacheView)
    requires
        m.inv(),
    ensures
        m.clear().inv(),
{
}

/// An access to a live key keeps the invariant. It replaces the key's entry
/// and leaves every other entry as it was.
pub proof fn lemma_touch_keeps_invariant(m: CacheView, key: i32, value: i32)
    requires
        m.inv(),
        m.index.contains_key(key),
    ensures
        m.touch(key, value).inv(),
        m.touch(key, value).index == m.index.insert(
            key,
            Entry { value, frequency: bump(m.index[key].frequency), stamp: m.clock },
        ),
        m.touch(key, value).size() == m.size(),
        m.touch(key, value).capacity == m.capacity,
{
    lemma_remove_inv(m, key);
    assert(listed(m.buckets, key));
    lemma_place_of(m.buckets, key);
    let (p, j) = place_of(m.buckets, key);
    assert(m.index[m.buckets[p].keys[j]].frequency == m.buckets[p].frequency);
    assert(1 <= m.buckets[p].frequency <= frequency_limit());
    lemma_insert_inv(m.remove(key), key, value, bump(m.index[key].frequency));
    let entry = Entry { value, frequency: bump(m.index[key].frequency), stamp: m.clock };
    assert(m.index.remove(key).insert(key, entry) =~= m.index.insert(key, entry));
    assert(m.index.insert(key, entry).dom() =~= m.index.dom());
}

/// A lookup keeps the invariant.
pub proof fn lemma_get_keeps_invariant(m: CacheView, key: i32)
    requires
        m.inv(),
    ensures
        m.get(key).inv(),
        m.get(key).capacity == m.capacity,
        m.get(key).size() == m.size(),
{
    if m.index.contains_key(key) {
        lemma_touch_keeps_invariant(m, key, m.index[key].value);
    }
}

/// What a store does to the index: nothing in a cache of capacity 0; else
/// it replaces the entry of a live key, or lets a new key enter, after the
/// victim has left if the cache was full.
pub proof fn lemma_put_index(m: CacheView, key: i32, value: i32)
    requires
        m.inv(),
    ensures
        m.capacity == 0 ==> m.put(key, value) == m,
        m.capacity > 0 && m.index.contains_key(key) ==> m.put(key, value).index == m.index.insert(
            key,
            Entry { value, frequency: bump(m.index[key].frequency), stamp: m.clock },
        ),
        m.capacity > 0 && !m.index.contains_key(key) && m.size() < m.capacity ==> m.put(
            key,
            value,
        ).index == m.index.insert(key, Entry { value, frequency: 1, stamp: m.clock }),
        m.capacity > 0 && !m.index.contains_key(key) && m.size() == m.capacity ==> {
            &&& m.index.contains_key(m.victim())
            &&& m.put(key, value).index == m.index.remove(m.victim()).insert(
                key,
                Entry { value, frequency: 1, stamp: m.clock },
            )
        },
{
    if m.capacity > 0 {
        if m.index.contains_key(key) {
            lemma_touch_keeps_invariant(m, key, value);
        } else if m.size() >= m.capacity {
            lemma_occupied(m);
            lemma_remove_inv(m, m.victim());
        }
    }
}

/// A store keeps the invariant, and with it the capacity bound and the
/// well-formedness of the buckets.
pub proof fn lemma_put_keeps_invariant(m: CacheView, key: i32, value: i32)
    requires
        m.inv(),
    ensures
        m.put(key, value).inv(),
        m.put(key, value).capacity == m.capacity,
{
    if m.capacity > 0 {
        if m.index.contains_key(key) {
            lemma_touch_keeps_invariant(m, key, value);
        } else if m.size() >= m.capacity {
            lemma_occupied(m);
            lemma_remove_inv(m, m.victim());
            lemma_insert_inv(m.evict(), key, value, 1);
        } else {
            lemma_insert_inv(m, key, value, 1);
        }
    }
}

/// Capacity bound: after a store the cache holds no more entries than its
/// capacity allows.
pub proof fn lemma_capacity_bound(m: CacheView, key: i32, value: i32)
    requires
        m.inv(),
    ensures
        m.put(key, value).size() <= m.capacity,
{
    lemma_put_keeps_invariant(m, key, value);
}

/// Eviction order: no live key has a lower frequency than the victim, and
/// among the keys of the victim's frequency none was touched before it.
pub proof fn lemma_victim_is_least(m: CacheView, key: i32)
    requires
        m.inv(),
        m.index.contains_key(key),
        key != m.victim(),
    ensures
        m.index.contains_key(m.victim()),
        m.index[m.victim()].frequency < m.index[key].frequency || (m.index[m.victim()].frequency
            == m.index[key].frequency && m.index[m.victim()].stamp < m.index[key].stamp),
{
    assert(listed(m.buckets, key));
    lemma_place_of(m.buckets, key);
    let (p, j) = place_of(m.buckets, key);
    assert(m.buckets[0].keys.len() > 0);
    assert(m.index.contains_key(m.buckets[0].keys[0]));
    assert(m.index[m.buckets[p].keys[j]].frequency == m.buckets[p].frequency);
    if p == 0 {
        assert(m.index[m.buckets[0].keys[0]].stamp < m.index[m.buckets[0].keys[j]].stamp);
    } else {
        assert(m.buckets[0].frequency < m.buckets[p].frequency);
    }
}

/// Eviction: a store of a new key into a full cache removes the victim and
/// no other key.
pub proof fn lemma_full_put_evicts_victim(m: CacheView, key: i32, value: i32)
    requires
        m.inv(),
        m.capacity > 0,
        !m.index.contains_key(key),
        m.size() == m.capacity,
    ensures
        m.index.contains_key(m.victim()),
        !m.put(key, value).index.contains_key(m.victim()),
        forall|k: i32|
            k != m.victim() && m.index.contains_key(k) ==> #[trigger] m.put(
                key,
                value,
            ).index.contains_key(k) && m.put(key, value).index[k] == m.index[k],
{
    lemma_put_index(m, key, value);
}

/// Recency: an access makes the key the most recently touched of all.
pub proof fn lemma_touched_is_latest(m: CacheView, key: i32, value: i32, other: i32)
    requires
        m.inv(),
        m.index.contains_key(key),
        m.index.contains_key(other),
        other != key,
    ensures
        m.touch(key, value).index[other].stamp < m.touch(key, value).index[key].stamp,
{
    lemma_touch_keeps_invariant(m, key, value);
}

/// Stamps: a store into a cache that is not disabled stamps its key with
/// the reading of the clock and advances the clock; so does a hit. Every
/// other entry keeps its stamp, which is older. A miss changes nothing.
pub proof fn lemma_stamp_is_last_touch(m: CacheView, key: i32, value: i32)
    requires
        m.inv(),
    ensures
        m.capacity > 0 ==> m.put(key, value).index[key].stamp == m.clock && m.put(
            key,
            value,
        ).clock == m.clock + 1,
        m.index.contains_key(key) ==> m.get(key).index[key].stamp == m.clock && m.get(key).clock
            == m.clock + 1,
        !m.index.contains_key(key) ==> m.get(key) == m,
        forall|k: i32|
            k != key && #[trigger] m.put(key, value).index.contains_key(k) ==> m.index.contains_key(
                k,
            ) && m.put(key, value).index[k].stamp == m.index[k].stamp && m.index[k].stamp
                < m.clock,
        forall|k: i32|
            k != key && #[trigger] m.get(key).index.contains_key(k) ==> m.index.contains_key(k)
                && m.get(key).index[k].stamp == m.index[k].stamp && m.index[k].stamp < m.clock,
{
    lemma_put_index(m, key, value);
    if m.index.contains_key(key) {
        lemma_touch_keeps_invariant(m, key, m.index[key].value);
        lemma_touch_keeps_invariant(m, key, value);
    }
    assert forall|k: i32|
        k != key && #[trigger] m.put(key, value).index.contains_key(k) implies m.index.contains_key(
        k,
    ) && m.put(key, value).index[k].stamp == m.index[k].stamp && m.index[k].stamp < m.clock by {
        if m.capacity > 0 && !m.index.contains_key(key) && m.size() >= m.capacity {
            assert(m.index.remove(m.victim()).contains_key(k));
        }
    }
}

/// Frequency step: a hit and a store under a live key raise the key's
/// frequency by one step, which is exactly 1 below the limit, and leave
/// every other entry as it was.
pub proof fn lemma_access_raises_frequency(m: CacheView, key: i32, value: i32)
    requires
        m.inv(),
        m.index.contains_key(key),
    ensures
        m.get(key).index[key].frequency == bump(m.index[key].frequency),
        m.put(key, value).index[key].frequency == bump(m.index[key].frequency),
        m.index[key].frequency < frequency_limit() ==> bump(m.index[key].frequency)
            == m.index[key].frequency + 1,
        m.get(key).index.dom() == m.index.dom(),
        m.put(key, value).index.dom() == m.index.dom(),
        forall|k: i32|
            k != key && m.index.contains_key(k) ==> #[trigger] m.get(key).index[k] == m.index[k],
        forall|k: i32|
            k != key && m.index.contains_key(k) ==> #[trigger] m.put(key, value).index[k]
                == m.index[k],
{
    lemma_touch_keeps_invariant(m, key, m.index[key].value);
    lemma_touch_keeps_invariant(m, key, value);
    lemma_put_index(m, key, value);
    let hit = Entry {
        value: m.index[key].value,
        frequency: bump(m.index[key].frequency),
        stamp: m.clock,
    };
    let stored = Entry { value, frequency: bump(m.index[key].frequency), stamp: m.clock };
    assert(m.index.insert(key, hit).dom() =~= m.index.dom());
    assert(m.index.insert(key, stored).dom() =~= m.index.dom());
    assert(m.size() > 0);
}

/// Frequency monotonicity: no operation lowers the frequency of a key that
/// stays in the cache.
pub proof fn lemma_frequency_never_falls(m: CacheView, key: i32, value: i32, k: i32)
    requires
        m.inv(),
        m.index.contains_key(k),
    ensures
        m.get(key).index.contains_key(k),
        m.get(key).index[k].frequency >= m.index[k].frequency,
        m.put(key, value).index.contains_key(k) ==> m.put(key, value).index[k].frequency
            >= m.index[k].frequency,
{
    lemma_put_index(m, key, value);
    if m.index.contains_key(key) {
        lemma_touch_keeps_invariant(m, key, m.index[key].value);
    }
    assert(m.size() > 0);
    if !m.index.contains_key(key) {
        assert(k != key);
    }
}

/// Round trip: what a store puts under a key is what the next lookup of the
/// key finds, unless the cache has capacity 0.
pub proof fn lemma_round_trip(m: CacheView, key: i32, value: i32)
    requires
        m.inv(),
        m.capacity > 0,
    ensures
        m.put(key, value).answer(key) == Some(value),
{
    lemma_put_index(m, key, value);
}

/// Disabled cache: with capacity 0 a store changes nothing and every lookup
/// misses.
pub proof fn lemma_disabled(m: CacheView, key: i32, value: i32)
    requires
        m.inv(),
        m.capacity == 0,
    ensures
        m.put(key, value) == m,
        m.put(key, value).answer(key).is_none(),
        m.answer(key).is_none(),
        m.get(key) == m,
{
    assert(m.index.dom().len() == 0);
    m.index.dom().lemma_len0_is_empty();
    assert(!m.index.dom().contains(key));
}

/// Bucket well-formedness: no bucket is empty, frequencies grow strictly
/// along the chain, there are buckets exactly if there are entries, and the
/// first bucket has the lowest frequency of all entries.
pub proof fn lemma_buckets_well_formed(m: CacheView)
    requires
        m.inv(),
    ensures
        populated(m.buckets),
        ascending(m.buckets),
        m.buckets.len() == 0 <==> m.size() == 0,
        forall|k: i32| #[trigger]
            m.index.contains_key(k) ==> m.buckets.len() > 0 && m.buckets[0].frequency
                <= m.index[k].frequency,
{
    if m.size() > 0 {
        lemma_occupied(m);
    }
    if m.buckets.len() > 0 {
        assert(m.buckets[0].keys.len() > 0);
        assert(m.index.contains_key(m.buckets[0].keys[0]));
    }
    assert forall|k: i32| #[trigger] m.index.contains_key(k) implies m.buckets.len() > 0
        && m.buckets[0].frequency <= m.index[k].frequency by {
        assert(listed(m.buckets, k));
        lemma_place_of(m.buckets, k);
        let (p, j) = place_of(m.buckets, k);
        assert(m.index[m.buckets[p].keys[j]].frequency == m.buckets[p].frequency);
        if p > 0 {
            assert(m.buckets[0].frequency < m.buckets[p].frequency);
        }
    }
}

/// Where the keys of the bucket at place `i` start in the eviction order.
pub open spec fn offset(bs: Seq<Bucket>, i: int) -> int {
    eviction_order(bs.take(i)).len() as int
}

/// The eviction order lists the keys of every bucket in a row, bucket after
/// bucket.
pub proof fn lemma_order_at(bs: Seq<Bucket>, i: int, j: int)
    requires
        0 <= i < bs.len(),
        0 <= j < bs[i].keys.len(),
    ensures
        0 <= offset(bs, i) + j < eviction_order(bs).len(),
        eviction_order(bs)[offset(bs, i) + j] == bs[i].keys[j],
    decreases bs.len(),
{
    let front = bs.drop_last();
    if i == bs.len() - 1 {
        assert(bs.take(i) =~= front);
    } else {
        assert(front.take(i) =~= bs.take(i));
        lemma_order_at(front, i, j);
    }
}

/// Every place in the eviction order belongs to one bucket.
pub proof fn lemma_order_from(bs: Seq<Bucket>, x: int) -> (place: (int, int))
    requires
        0 <= x < eviction_order(bs).len(),
    ensures
        0 <= place.0 < bs.len(),
        0 <= place.1 < bs[place.0].keys.len(),
        offset(bs, place.0) + place.1 == x,
        eviction_order(bs)[x] == bs[place.0].keys[place.1],
    decreases bs.len(),
{
    let front = bs.drop_last();
    if x >= eviction_order(front).len() {
        assert(bs.take(bs.len() - 1) =~= front);
        (bs.len() - 1, x - eviction_order(front).len())
    } else {
        let place = lemma_order_from(front, x);
        assert(front.take(place.0) =~= bs.take(place.0));
        place
    }
}

/// A later bucket starts behind the end of an earlier one.
pub proof fn lemma_offsets_grow(bs: Seq<Bucket>, a: int, b: int)
    requires
        0 <= a < b <= bs.len(),
    ensures
        offset(bs, a) + bs[a].keys.len() <= offset(bs, b),
    decreases b,
{
    assert(bs.take(b).drop_last() =~= bs.take(b - 1));
    assert(bs.take(b)[b - 1] == bs[b - 1]);
    if a < b - 1 {
        lemma_offsets_grow(bs, a, b - 1);
    }
}

/// Eviction order, in full: it lists every live key once; it starts with
/// the victim; and of two keys the one that stands first has the lower
/// frequency or, at equal frequency, was touched first.
pub proof fn lemma_eviction_order(m: CacheView)
    requires
        m.inv(),
    ensures
        eviction_order(m.buckets).no_duplicates(),
        eviction_order(m.buckets).to_set() == m.index.dom(),
        eviction_order(m.buckets).len() == m.size(),
        m.size() > 0 ==> eviction_order(m.buckets)[0] == m.victim(),
        forall|x: int, y: int|
            #![trigger eviction_order(m.buckets)[x], eviction_order(m.buckets)[y]]
            0 <= x < y < eviction_order(m.buckets).len() ==> {
                let first = m.index[eviction_order(m.buckets)[x]];
                let second = m.index[eviction_order(m.buckets)[y]];
                first.frequency < second.frequency || (first.frequency == second.frequency
                    && first.stamp < second.stamp)
            },
{
    let bs = m.buckets;
    let order = eviction_order(bs);
    assert forall|x: int, y: int| 0 <= x < y < order.len() implies {
        let first = m.index[#[trigger] order[x]];
        let second = m.index[#[trigger] order[y]];
        first.frequency < second.frequency || (first.frequency == second.frequency && first.stamp
            < second.stamp)
    } by {
        let p = lemma_order_from(bs, x);
        let q = lemma_order_from(bs, y);
        assert(m.index[bs[p.0].keys[p.1]].frequency == bs[p.0].frequency);
        assert(m.index[bs[q.0].keys[q.1]].frequency == bs[q.0].frequency);
        if q.0 < p.0 {
            lemma_offsets_grow(bs, q.0, p.0);
        } else if p.0 == q.0 {
            assert(m.index[bs[p.0].keys[p.1]].stamp < m.index[bs[p.0].keys[q.1]].stamp);
        } else {
            assert(bs[p.0].frequency < bs[q.0].frequency);
        }
    }
    assert forall|x: int, y: int| 0 <= x < order.len() && 0 <= y < order.len() && x != y implies order[x]
        != order[y] by {
        if x < y {
            assert(m.index[order[x]].frequency < m.index[order[y]].frequency || m.index[order[x]].stamp
                < m.index[order[y]].stamp);
        } else {
            assert(m.index[order[y]].frequency < m.index[order[x]].frequency || m.index[order[y]].stamp
                < m.index[order[x]].stamp);
        }
    }
    assert forall|k: i32| order.to_set().contains(k) <==> m.index.dom().contains(k) by {
        if order.to_set().contains(k) {
            let x = choose|x: int| 0 <= x < order.len() && order[x] == k;
            let p = lemma_order_from(bs, x);
            assert(m.index.contains_key(bs[p.0].keys[p.1]));
        }
        if m.index.dom().contains(k) {
            assert(m.index.contains_key(k));
            assert(listed(bs, k));
            lemma_place_of(bs, k);
            let (i, j) = place_of(bs, k);
            lemma_order_at(bs, i, j);
            assert(order[offset(bs, i) + j] == k);
        }
    }
    assert(order.to_set() =~= m.index.dom());
    order.unique_seq_to_set();
    if m.size() > 0 {
        lemma_occupied(m);
        assert(bs.take(0) =~= Seq::<Bucket>::empty());
        lemma_order_at(bs, 0, 0);
    }
}

} // verus!
