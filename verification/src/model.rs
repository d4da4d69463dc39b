//! The mathematical model of the cache.
//!
//! A cache is modelled by an index from keys to entries and by a chain of
//! frequency buckets. The buckets stand in strictly ascending order of
//! frequency; each lists the keys that currently have its frequency, the
//! least recently touched first. A logical clock stamps every touch, so that
//! "least recently touched" has a meaning that can be stated: the smaller
//! stamp.

use vstd::prelude::*;

verus! {

/// What the cache knows of one key.
pub struct Entry {
    /// The payload stored under the key.
    pub value: i32,
    /// How often the key has been touched, counting its insertion.
    pub frequency: nat,
    /// The reading of the logical clock when the key was last touched.
    pub stamp: nat,
}

/// All keys that share one access frequency, least recently touched first.
pub struct Bucket {
    pub frequency: nat,
    pub keys: Seq<i32>,
}

/// The abstract state of a cache.
pub struct CacheView {
    /// The number of entries the cache may hold.
    pub capacity: nat,
    /// The logical clock: the number of touches so far.
    pub clock: nat,
    /// The entry of every live key.
    pub index: Map<i32, Entry>,
    /// The frequency buckets, lowest frequency first.
    pub buckets: Seq<Bucket>,
}

/// The largest access frequency an entry can reach; further accesses leave
/// the frequency where it is.
pub open spec fn frequency_limit() -> nat {
    u64::MAX as nat
}

/// The frequency of an entry after one more access.
pub open spec fn bump(f: nat) -> nat {
    if f < frequency_limit() {
        f + 1
    } else {
        f
    }
}

/// The number of leading buckets whose frequency is below `f`. In an
/// ascending chain this is the place where the bucket of frequency `f`
/// stands, or where it would have to be put.
pub open spec fn rank(bs: Seq<Bucket>, f: nat) -> int
    decreases bs.len(),
{
    if bs.len() == 0 || bs[0].frequency >= f {
        0
    } else {
        1 + rank(bs.drop_first(), f)
    }
}

/// Whether the chain has a bucket of frequency `f`.
pub open spec fn has_bucket(bs: Seq<Bucket>, f: nat) -> bool {
    rank(bs, f) < bs.len() && bs[rank(bs, f)].frequency == f
}

/// The chain after `key` has been appended to the bucket of frequency `f`,
/// which is created in its place if the chain has none.
pub open spec fn attach(bs: Seq<Bucket>, f: nat, key: i32) -> Seq<Bucket> {
    let p = rank(bs, f);
    if has_bucket(bs, f) {
        bs.update(p, Bucket { frequency: f, keys: bs[p].keys.push(key) })
    } else {
        bs.insert(p, Bucket { frequency: f, keys: seq![key] })
    }
}

/// The chain after `key` has been taken out of the bucket of frequency `f`.
/// A bucket that would be left without keys leaves the chain.
pub open spec fn detach(bs: Seq<Bucket>, f: nat, key: i32) -> Seq<Bucket> {
    let p = rank(bs, f);
    if has_bucket(bs, f) && bs[p].keys.contains(key) {
        let rest = bs[p].keys.remove(bs[p].keys.index_of(key));
        if rest.len() == 0 {
            bs.remove(p)
        } else {
            bs.update(p, Bucket { frequency: f, keys: rest })
        }
    } else {
        bs
    }
}

/// A place at which the chain lists `key`: the bucket's place in the chain
/// and the key's place in the bucket.
pub open spec fn place_of(bs: Seq<Bucket>, key: i32) -> (int, int) {
    choose|i: int, j: int|
        0 <= i < bs.len() && 0 <= j < bs[i].keys.len() && #[trigger] bs[i].keys[j] == key
}

/// The keys of all buckets in one row: the order in which the entries would
/// leave if room were needed again and again and nothing else happened.
pub open spec fn eviction_order(bs: Seq<Bucket>) -> Seq<i32>
    decreases bs.len(),
{
    if bs.len() == 0 {
        Seq::empty()
    } else {
        eviction_order(bs.drop_last()) + bs[bs.len() - 1].keys
    }
}

/// Frequencies grow strictly along the chain.
pub open spec fn ascending(bs: Seq<Bucket>) -> bool {
    forall|i: int, j: int| 0 <= i < j < bs.len() ==> bs[i].frequency < bs[j].frequency
}

/// No bucket is empty, and every frequency is a count that an entry can have.
pub open spec fn populated(bs: Seq<Bucket>) -> bool {
    forall|i: int|
        0 <= i < bs.len() ==> (#[trigger] bs[i]).keys.len() > 0 && 1 <= bs[i].frequency
            <= frequency_limit()
}

/// Whether some bucket lists `key`.
pub open spec fn listed(bs: Seq<Bucket>, key: i32) -> bool {
    exists|i: int, j: int|
        0 <= i < bs.len() && 0 <= j < bs[i].keys.len() && #[trigger] bs[i].keys[j] == key
}

/// Every key that a bucket lists is indexed, with the bucket's frequency.
pub open spec fn indexed(bs: Seq<Bucket>, index: Map<i32, Entry>) -> bool {
    forall|i: int, j: int|
        0 <= i < bs.len() && 0 <= j < bs[i].keys.len() ==> index.contains_key(
            #[trigger] bs[i].keys[j],
        ) && index[bs[i].keys[j]].frequency == bs[i].frequency
}

/// Every indexed key is listed by some bucket.
pub open spec fn covered(bs: Seq<Bucket>, index: Map<i32, Entry>) -> bool {
    forall|k: i32| #[trigger] index.contains_key(k) ==> listed(bs, k)
}

/// Within a bucket, keys stand in the order in which they were last touched.
pub open spec fn recency_ordered(bs: Seq<Bucket>, index: Map<i32, Entry>) -> bool {
    forall|i: int, j1: int, j2: int|
        0 <= i < bs.len() && 0 <= j1 < j2 < bs[i].keys.len() ==> index[#[trigger] bs[i].keys[j1]].stamp
            < index[#[trigger] bs[i].keys[j2]].stamp
}

/// Every stamp was taken before the present reading of the clock.
pub open spec fn stamped_before(index: Map<i32, Entry>, clock: nat) -> bool {
    forall|k: i32| #[trigger] index.contains_key(k) ==> index[k].stamp < clock
}

/// The index and the chain of buckets describe the same set of entries.
pub open spec fn coherent(bs: Seq<Bucket>, index: Map<i32, Entry>, clock: nat) -> bool {
    &&& index.dom().finite()
    &&& populated(bs)
    &&& ascending(bs)
    &&& indexed(bs, index)
    &&& covered(bs, index)
    &&& recency_ordered(bs, index)
    &&& stamped_before(index, clock)
}

impl CacheView {
    /// The cache of the given capacity that holds nothing.
    pub open spec fn fresh(capacity: nat) -> CacheView {
        CacheView { capacity, clock: 0, index: Map::empty(), buckets: Seq::empty() }
    }

    /// The number of live entries.
    pub open spec fn size(self) -> nat {
        self.index.len()
    }

    /// The invariant of every reachable state.
    pub open spec fn inv(self) -> bool {
        &&& coherent(self.buckets, self.index, self.clock)
        &&& self.size() <= self.capacity
    }

    /// The state without `key`.
    pub open spec fn remove(self, key: i32) -> CacheView {
        CacheView {
            index: self.index.remove(key),
            buckets: detach(self.buckets, self.index[key].frequency, key),
            ..self
        }
    }

    /// The state after `key` has entered with the given value and frequency,
    /// as the most recently touched key of that frequency.
    pub open spec fn insert(self, key: i32, value: i32, frequency: nat) -> CacheView {
        CacheView {
            clock: self.clock + 1,
            index: self.index.insert(key, Entry { value, frequency, stamp: self.clock }),
            buckets: attach(self.buckets, frequency, key),
            ..self
        }
    }

    /// The state after a live key has been touched and left with `value`: its
    /// frequency goes up by one step, and it becomes the most recently touched
    /// key of its new frequency.
    pub open spec fn touch(self, key: i32, value: i32) -> CacheView {
        self.remove(key).insert(key, value, bump(self.index[key].frequency))
    }

    /// The key that leaves when room is needed: the first key of the first
    /// bucket.
    pub open spec fn victim(self) -> i32 {
        self.buckets[0].keys[0]
    }

    /// The state after the victim has left.
    pub open spec fn evict(self) -> CacheView {
        self.remove(self.victim())
    }

    /// The state after a key that was not live has entered with frequency 1.
    pub open spec fn enter(self, key: i32, value: i32) -> CacheView {
        self.insert(key, value, 1)
    }

    /// What a lookup of `key` finds.
    pub open spec fn answer(self, key: i32) -> Option<i32> {
        if self.index.contains_key(key) {
            Some(self.index[key].value)
        } else {
            None
        }
    }

    /// The state after a lookup of `key`: a hit touches the key, a miss
    /// changes nothing.
    pub open spec fn get(self, key: i32) -> CacheView {
        if self.index.contains_key(key) {
            self.touch(key, self.index[key].value)
        } else {
            self
        }
    }

    /// The state after `value` has been stored under `key`.
    pub open spec fn put(self, key: i32, value: i32) -> CacheView {
        if self.capacity == 0 {
            self
        } else if self.index.contains_key(key) {
            self.touch(key, value)
        } else if self.size() >= self.capacity {
            self.evict().enter(key, value)
        } else {
            self.enter(key, value)
        }
    }

    /// The state after everything has been dropped. Capacity and clock stay.
    pub open spec fn clear(self) -> CacheView {
        CacheView { index: Map::empty(), buckets: Seq::empty(), ..self }
    }
}

/// `rank` is the first place whose frequency is not below `f`.
pub proof fn lemma_rank_is(bs: Seq<Bucket>, f: nat, p: int)
    requires
        0 <= p <= bs.len(),
        forall|i: int| 0 <= i < p ==> (#[trigger] bs[i]).frequency < f,
        p < bs.len() ==> bs[p].frequency >= f,
    ensures
        rank(bs, f) == p,
    decreases bs.len(),
{
    if bs.len() == 0 || bs[0].frequency >= f {
        if p > 0 {
            assert(bs[0].frequency < f);
        }
    } else {
        let rest = bs.drop_first();
        assert forall|i: int| 0 <= i < p - 1 implies (#[trigger] rest[i]).frequency < f by {
            assert(rest[i] == bs[i + 1]);
        }
        if p - 1 < rest.len() {
            assert(rest[p - 1] == bs[p]);
        }
        lemma_rank_is(rest, f, p - 1);
    }
}

/// What `rank` returns: a place in the chain with lower frequencies before it
/// and none at it.
pub proof fn lemma_rank_bounds(bs: Seq<Bucket>, f: nat)
    ensures
        0 <= rank(bs, f) <= bs.len(),
        forall|i: int| 0 <= i < rank(bs, f) ==> (#[trigger] bs[i]).frequency < f,
        rank(bs, f) < bs.len() ==> bs[rank(bs, f)].frequency >= f,
    decreases bs.len(),
{
    if bs.len() == 0 || bs[0].frequency >= f {
    } else {
        let rest = bs.drop_first();
        lemma_rank_bounds(rest, f);
        assert forall|i: int| 0 <= i < rank(bs, f) implies (#[trigger] bs[i]).frequency < f by {
            if i > 0 {
                assert(rest[i - 1] == bs[i]);
            }
        }
        if rank(bs, f) < bs.len() {
            assert(rest[rank(rest, f)] == bs[rank(bs, f)]);
        }
    }
}

/// In an ascending chain every bucket stands at the rank of its frequency.
pub proof fn lemma_rank_at(bs: Seq<Bucket>, p: int)
    requires
        ascending(bs),
        0 <= p < bs.len(),
    ensures
        rank(bs, bs[p].frequency) == p,
        has_bucket(bs, bs[p].frequency),
{
    lemma_rank_is(bs, bs[p].frequency, p);
}


/// A listed key stands at its place.
pub proof fn lemma_place_of(bs: Seq<Bucket>, key: i32)
    requires
        listed(bs, key),
    ensures
        0 <= place_of(bs, key).0 < bs.len(),
        0 <= place_of(bs, key).1 < bs[place_of(bs, key).0].keys.len(),
        bs[place_of(bs, key).0].keys[place_of(bs, key).1] == key,
{
}

/// A key is listed at one place only.
pub proof fn lemma_one_place(
    bs: Seq<Bucket>,
    index: Map<i32, Entry>,
    i1: int,
    j1: int,
    i2: int,
    j2: int,
)
    requires
        ascending(bs),
        indexed(bs, index),
        recency_ordered(bs, index),
        0 <= i1 < bs.len(),
        0 <= j1 < bs[i1].keys.len(),
        0 <= i2 < bs.len(),
        0 <= j2 < bs[i2].keys.len(),
        bs[i1].keys[j1] == bs[i2].keys[j2],
    ensures
        i1 == i2,
        j1 == j2,
{
    let k = bs[i1].keys[j1];
    assert(index[k].frequency == bs[i1].frequency);
    assert(index[bs[i2].keys[j2]].frequency == bs[i2].frequency);
    if i1 < i2 {
        assert(bs[i1].frequency < bs[i2].frequency);
    }
    if i2 < i1 {
        assert(bs[i2].frequency < bs[i1].frequency);
    }
    if j1 < j2 {
        assert(index[bs[i1].keys[j1]].stamp < index[bs[i1].keys[j2]].stamp);
    }
    if j2 < j1 {
        assert(index[bs[i1].keys[j2]].stamp < index[bs[i1].keys[j1]].stamp);
    }
}

/// No bucket lists a key twice.
pub proof fn lemma_no_duplicates(bs: Seq<Bucket>, index: Map<i32, Entry>, p: int)
    requires
        recency_ordered(bs, index),
        0 <= p < bs.len(),
    ensures
        bs[p].keys.no_duplicates(),
{
    let keys = bs[p].keys;
    assert forall|i: int, j: int| 0 <= i < keys.len() && 0 <= j < keys.len() && i != j implies keys[i]
        != keys[j] by {
        if i < j {
            assert(index[bs[p].keys[i]].stamp < index[bs[p].keys[j]].stamp);
        } else {
            assert(index[bs[p].keys[j]].stamp < index[bs[p].keys[i]].stamp);
        }
    }
}

/// What `detach` does to a key whose place is known.
pub proof fn lemma_detach_at(bs: Seq<Bucket>, p: int, j: int)
    requires
        ascending(bs),
        0 <= p < bs.len(),
        0 <= j < bs[p].keys.len(),
        bs[p].keys.no_duplicates(),
    ensures
        detach(bs, bs[p].frequency, bs[p].keys[j]) == (if bs[p].keys.len() == 1 {
            bs.remove(p)
        } else {
            bs.update(p, Bucket { frequency: bs[p].frequency, keys: bs[p].keys.remove(j) })
        }),
{
    lemma_rank_at(bs, p);
    let keys = bs[p].keys;
    assert(keys[j] == keys[j]);
    assert(keys.contains(keys[j]));
    let found = keys.index_of(keys[j]);
    assert(0 <= found < keys.len() && keys[found] == keys[j]);
}

/// What `attach` does when the rank of the frequency is known.
pub proof fn lemma_attach_at(bs: Seq<Bucket>, f: nat, key: i32, p: int)
    requires
        0 <= p <= bs.len(),
        forall|i: int| 0 <= i < p ==> (#[trigger] bs[i]).frequency < f,
        p < bs.len() ==> bs[p].frequency >= f,
    ensures
        attach(bs, f, key) == (if p < bs.len() && bs[p].frequency == f {
            bs.update(p, Bucket { frequency: f, keys: bs[p].keys.push(key) })
        } else {
            bs.insert(p, Bucket { frequency: f, keys: seq![key] })
        }),
{
    lemma_rank_is(bs, f, p);
}


/// Taking a listed key out of its bucket and out of the index keeps the two
/// coherent.
pub proof fn lemma_remove_coherent_at(
    bs: Seq<Bucket>,
    index: Map<i32, Entry>,
    clock: nat,
    p: int,
    j: int,
)
    requires
        coherent(bs, index, clock),
        0 <= p < bs.len(),
        0 <= j < bs[p].keys.len(),
    ensures
        coherent(
            detach(bs, bs[p].frequency, bs[p].keys[j]),
            index.remove(bs[p].keys[j]),
            clock,
        ),
{
    let key = bs[p].keys[j];
    let keys = bs[p].keys;
    let rest = keys.remove(j);
    let after = detach(bs, bs[p].frequency, key);
    let index2 = index.remove(key);
    lemma_no_duplicates(bs, index, p);
    lemma_detach_at(bs, p, j);
    if keys.len() == 1 {
        assert(after == bs.remove(p));
        assert forall|i: int| 0 <= i < after.len() implies #[trigger] after[i] == bs[if i < p {
            i
        } else {
            i + 1
        }] by {}
        assert forall|i: int, x: int|
            0 <= i < after.len() && 0 <= x < after[i].keys.len() implies index2.contains_key(
            #[trigger] after[i].keys[x],
        ) && index2[after[i].keys[x]].frequency == after[i].frequency by {
            let i0 = if i < p { i } else { i + 1 };
            assert(after[i] == bs[i0]);
            assert(index.contains_key(bs[i0].keys[x]));
            if bs[i0].keys[x] == key {
                lemma_one_place(bs, index, i0, x, p, j);
            }
        }
        assert forall|k: i32| #[trigger] index2.contains_key(k) implies listed(after, k) by {
            assert(index.contains_key(k));
            let (i0, x) = choose|i0: int, x: int|
                0 <= i0 < bs.len() && 0 <= x < bs[i0].keys.len() && #[trigger] bs[i0].keys[x] == k;
            if i0 == p {
                assert(x == 0 && j == 0);
            }
            let i = if i0 < p { i0 } else { i0 - 1 };
            assert(after[i] == bs[i0]);
            assert(after[i].keys[x] == k);
        }
        assert forall|i: int, x: int, y: int|
            0 <= i < after.len() && 0 <= x < y < after[i].keys.len() implies index2[#[trigger] after[i].keys[x]].stamp
            < index2[#[trigger] after[i].keys[y]].stamp by {
            let i0 = if i < p { i } else { i + 1 };
            assert(after[i] == bs[i0]);
            assert(index[bs[i0].keys[x]].stamp < index[bs[i0].keys[y]].stamp);
            if bs[i0].keys[x] == key {
                lemma_one_place(bs, index, i0, x, p, j);
            }
            if bs[i0].keys[y] == key {
                lemma_one_place(bs, index, i0, y, p, j);
            }
        }
        assert(ascending(after)) by {
            assert forall|a: int, b: int| 0 <= a < b < after.len() implies after[a].frequency
                < after[b].frequency by {
                let a0 = if a < p { a } else { a + 1 };
                let b0 = if b < p { b } else { b + 1 };
                assert(after[a] == bs[a0]);
                assert(after[b] == bs[b0]);
            }
        }
    } else {
        assert(after == bs.update(p, Bucket { frequency: bs[p].frequency, keys: rest }));
        assert forall|x: int| 0 <= x < rest.len() implies #[trigger] rest[x] == keys[if x < j {
            x
        } else {
            x + 1
        }] by {}
        assert forall|i: int, x: int|
            0 <= i < after.len() && 0 <= x < after[i].keys.len() implies index2.contains_key(
            #[trigger] after[i].keys[x],
        ) && index2[after[i].keys[x]].frequency == after[i].frequency by {
            let x0 = if i == p && x >= j { x + 1 } else { x };
            assert(after[i].keys[x] == bs[i].keys[x0]);
            assert(index.contains_key(bs[i].keys[x0]));
            if bs[i].keys[x0] == key {
                lemma_one_place(bs, index, i, x0, p, j);
            }
        }
        assert forall|k: i32| #[trigger] index2.contains_key(k) implies listed(after, k) by {
            assert(index.contains_key(k));
            let (i0, x0) = choose|i0: int, x0: int|
                0 <= i0 < bs.len() && 0 <= x0 < bs[i0].keys.len() && #[trigger] bs[i0].keys[x0]
                    == k;
            let x = if i0 == p && x0 > j { x0 - 1 } else { x0 };
            assert(after[i0].keys[x] == k);
        }
        assert forall|i: int, x: int, y: int|
            0 <= i < after.len() && 0 <= x < y < after[i].keys.len() implies index2[#[trigger] after[i].keys[x]].stamp
            < index2[#[trigger] after[i].keys[y]].stamp by {
            let x0 = if i == p && x >= j { x + 1 } else { x };
            let y0 = if i == p && y >= j { y + 1 } else { y };
            assert(after[i].keys[x] == bs[i].keys[x0]);
            assert(after[i].keys[y] == bs[i].keys[y0]);
            assert(index[bs[i].keys[x0]].stamp < index[bs[i].keys[y0]].stamp);
            if bs[i].keys[x0] == key {
                lemma_one_place(bs, index, i, x0, p, j);
            }
            if bs[i].keys[y0] == key {
                lemma_one_place(bs, index, i, y0, p, j);
            }
        }
        assert(ascending(after)) by {
            assert forall|a: int, b: int| 0 <= a < b < after.len() implies after[a].frequency
                < after[b].frequency by {
                assert(after[a].frequency == bs[a].frequency);
                assert(after[b].frequency == bs[b].frequency);
            }
        }
        assert(populated(after)) by {
            assert forall|i: int| 0 <= i < after.len() implies (#[trigger] after[i]).keys.len() > 0
                && 1 <= after[i].frequency <= frequency_limit() by {
                assert(bs[i].keys.len() > 0);
            }
        }
    }
}


/// Appending a key that was not indexed to the bucket of its frequency, and
/// indexing it with the present stamp, keeps index and chain coherent.
pub proof fn lemma_insert_coherent(
    bs: Seq<Bucket>,
    index: Map<i32, Entry>,
    clock: nat,
    key: i32,
    value: i32,
    f: nat,
)
    requires
        coherent(bs, index, clock),
        !index.contains_key(key),
        1 <= f <= frequency_limit(),
    ensures
        coherent(
            attach(bs, f, key),
            index.insert(key, Entry { value, frequency: f, stamp: clock }),
            (clock + 1) as nat,
        ),
{
    let p = rank(bs, f);
    let after = attach(bs, f, key);
    let index2 = index.insert(key, Entry { value, frequency: f, stamp: clock });
    lemma_rank_bounds(bs, f);
    if has_bucket(bs, f) {
        let grown = bs[p].keys.push(key);
        assert(after == bs.update(p, Bucket { frequency: f, keys: grown }));
        assert forall|i: int, x: int|
            0 <= i < after.len() && 0 <= x < after[i].keys.len() implies index2.contains_key(
            #[trigger] after[i].keys[x],
        ) && index2[after[i].keys[x]].frequency == after[i].frequency by {
            if i == p && x == bs[p].keys.len() {
            } else {
                assert(after[i].keys[x] == bs[i].keys[x]);
                assert(index.contains_key(bs[i].keys[x]));
            }
        }
        assert forall|k: i32| #[trigger] index2.contains_key(k) implies listed(after, k) by {
            if k == key {
                assert(after[p].keys[bs[p].keys.len() as int] == key);
            } else {
                assert(index.contains_key(k));
                let (i0, x0) = choose|i0: int, x0: int|
                    0 <= i0 < bs.len() && 0 <= x0 < bs[i0].keys.len() && #[trigger] bs[i0].keys[x0]
                        == k;
                assert(after[i0].keys[x0] == k);
            }
        }
        assert forall|i: int, x: int, y: int|
            0 <= i < after.len() && 0 <= x < y < after[i].keys.len() implies index2[#[trigger] after[i].keys[x]].stamp
            < index2[#[trigger] after[i].keys[y]].stamp by {
            assert(after[i].keys[x] == bs[i].keys[x]);
            assert(index.contains_key(bs[i].keys[x]));
            if i == p && y == bs[p].keys.len() {
            } else {
                assert(after[i].keys[y] == bs[i].keys[y]);
                assert(index.contains_key(bs[i].keys[y]));
                assert(index[bs[i].keys[x]].stamp < index[bs[i].keys[y]].stamp);
            }
        }
        assert(ascending(after)) by {
            assert forall|a: int, b: int| 0 <= a < b < after.len() implies after[a].frequency
                < after[b].frequency by {
                assert(after[a].frequency == bs[a].frequency);
                assert(after[b].frequency == bs[b].frequency);
            }
        }
        assert(populated(after)) by {
            assert forall|i: int| 0 <= i < after.len() implies (#[trigger] after[i]).keys.len() > 0
                && 1 <= after[i].frequency <= frequency_limit() by {
                assert(bs[i].keys.len() > 0);
            }
        }
    } else {
        let single = Bucket { frequency: f, keys: seq![key] };
        assert(after == bs.insert(p, single));
        assert forall|i: int| 0 <= i < after.len() implies #[trigger] after[i] == (if i < p {
            bs[i]
        } else if i == p {
            single
        } else {
            bs[i - 1]
        }) by {}
        assert forall|i: int, x: int|
            0 <= i < after.len() && 0 <= x < after[i].keys.len() implies index2.contains_key(
            #[trigger] after[i].keys[x],
        ) && index2[after[i].keys[x]].frequency == after[i].frequency by {
            if i != p {
                let i0 = if i < p { i } else { i - 1 };
                assert(after[i] == bs[i0]);
                assert(index.contains_key(bs[i0].keys[x]));
            }
        }
        assert forall|k: i32| #[trigger] index2.contains_key(k) implies listed(after, k) by {
            if k == key {
                assert(after[p].keys[0] == key);
            } else {
                assert(index.contains_key(k));
                let (i0, x0) = choose|i0: int, x0: int|
                    0 <= i0 < bs.len() && 0 <= x0 < bs[i0].keys.len() && #[trigger] bs[i0].keys[x0]
                        == k;
                let i = if i0 < p { i0 } else { i0 + 1 };
                assert(after[i] == bs[i0]);
                assert(after[i].keys[x0] == k);
            }
        }
        assert forall|i: int, x: int, y: int|
            0 <= i < after.len() && 0 <= x < y < after[i].keys.len() implies index2[#[trigger] after[i].keys[x]].stamp
            < index2[#[trigger] after[i].keys[y]].stamp by {
            let i0 = if i < p { i } else { i - 1 };
            assert(after[i] == bs[i0]);
            assert(index.contains_key(bs[i0].keys[x]));
            assert(index.contains_key(bs[i0].keys[y]));
            assert(index[bs[i0].keys[x]].stamp < index[bs[i0].keys[y]].stamp);
        }
        assert(ascending(after)) by {
            assert forall|a: int, b: int| 0 <= a < b < after.len() implies after[a].frequency
                < after[b].frequency by {
                let a0 = if a < p { a } else { a - 1 };
                let b0 = if b < p { b } else { b - 1 };
                if a != p {
                    assert(after[a] == bs[a0]);
                }
                if b != p {
                    assert(after[b] == bs[b0]);
                }
                if a == p {
                    assert(bs[p].frequency < bs[b0].frequency || p == b0);
                }
            }
        }
        assert(populated(after)) by {
            assert forall|i: int| 0 <= i < after.len() implies (#[trigger] after[i]).keys.len() > 0
                && 1 <= after[i].frequency <= frequency_limit() by {
                if i != p {
                    let i0 = if i < p { i } else { i - 1 };
                    assert(after[i] == bs[i0]);
                }
            }
        }
    }
}

/// A state with entries has buckets, and its victim is one of the entries.
pub proof fn lemma_occupied(m: CacheView)
    requires
        m.inv(),
        m.size() > 0,
    ensures
        m.buckets.len() > 0,
        m.buckets[0].keys.len() > 0,
        m.index.contains_key(m.victim()),
{
    let k = m.index.dom().choose();
    assert(m.index.contains_key(k));
    assert(listed(m.buckets, k));
    assert(m.index.contains_key(m.buckets[0].keys[0]));
}

/// Taking a live key out keeps the invariant and leaves one entry less.
pub proof fn lemma_remove_inv(m: CacheView, key: i32)
    requires
        m.inv(),
        m.index.contains_key(key),
    ensures
        m.remove(key).inv(),
        m.remove(key).size() == m.size() - 1,
        m.remove(key).index == m.index.remove(key),
        m.remove(key).capacity == m.capacity,
        m.remove(key).clock == m.clock,
{
    assert(listed(m.buckets, key));
    lemma_place_of(m.buckets, key);
    let (p, j) = place_of(m.buckets, key);
    assert(m.index[m.buckets[p].keys[j]].frequency == m.buckets[p].frequency);
    lemma_remove_coherent_at(m.buckets, m.index, m.clock, p, j);
}

/// Letting a key enter that was not live keeps the invariant, as long as
/// there is room, and leaves one entry more.
pub proof fn lemma_insert_inv(m: CacheView, key: i32, value: i32, f: nat)
    requires
        m.inv(),
        !m.index.contains_key(key),
        m.size() < m.capacity,
        1 <= f <= frequency_limit(),
    ensures
        m.insert(key, value, f).inv(),
        m.insert(key, value, f).size() == m.size() + 1,
{
    lemma_insert_coherent(m.buckets, m.index, m.clock, key, value, f);
}

} // verus!
