//! The cache itself: two hash indexes and the links that thread their
//! records into a chain of frequency buckets, each with a chain of entries.
//!
//! Records refer to each other by handle, never by address. The handle of an
//! entry is its key; the handle of a bucket is its frequency.

use crate::laws::lemma_eviction_order;
use crate::links::{
    bucket_at, chain_linked, handle, lemma_anchor_step, lemma_anchors_after_append,
    lemma_anchors_after_drop, lemma_anchors_after_splice, lemma_anchors_after_trim,
    lemma_bucket_record, lemma_entry_record, lemma_handles, lemma_listing_grows,
    lemma_live_bucket, lemma_mirrors_after_insert, lemma_mirrors_after_unlink,
    lemma_nothing_is_well_formed, lemma_rank_after_drop, lemma_rows_after_append,
    lemma_rows_after_single, lemma_rows_after_unlink, link_bucket, listing, lowest, mirrors,
    node_at, only_live, predecessor, row_linked, rows_anchored, rows_linked, set_next,
    unlink_bucket, unlink_entry, Freq, Node,
};
use crate::model::{
    eviction_order, frequency_limit, has_bucket, lemma_attach_at, lemma_detach_at,
    lemma_insert_coherent, lemma_no_duplicates, lemma_occupied, lemma_place_of, lemma_rank_at,
    lemma_rank_bounds, lemma_rank_is, lemma_remove_coherent_at, place_of, rank, Bucket,
    CacheView,
};
use std::collections::HashMap;
use vstd::prelude::*;

verus! {

/// What `get` returns for a key that is not in the cache.
pub const MISS: i32 = -1;

/// What the cache shows of one entry.
#[derive(Clone, Copy, Debug, PartialEq, Eq)]
pub struct Item {
    pub key: i32,
    pub value: i32,
    pub frequency: u64,
}

/// A cache of fixed capacity that evicts the least frequently used entry,
/// and among several of these the least recently used one.
pub struct LFUCache {
    len: usize,
    cap: usize,
    keys: HashMap<i32, Node>,
    freqs: HashMap<u64, Freq>,
    head: Option<u64>,
    model: Ghost<CacheView>,
}

impl View for LFUCache {
    type V = CacheView;

    closed spec fn view(&self) -> CacheView {
        self.model@
    }
}

impl LFUCache {
    /// The representation invariant: the records and their links realise the
    /// state that the view describes, and that state is a reachable one.
    pub closed spec fn wf(&self) -> bool {
        let m = self.model@;
        &&& m.inv()
        &&& self.cap as nat == m.capacity
        &&& self.len as nat == m.index.len()
        &&& mirrors(self.keys@, m.index)
        &&& rows_linked(self.keys@, m.buckets)
        &&& rows_anchored(self.freqs@, m.buckets)
        &&& chain_linked(self.freqs@, m.buckets)
        &&& only_live(self.freqs@, m.buckets)
        &&& self.head == lowest(m.buckets)
    }

    /// An empty cache that holds up to `capacity` entries. With capacity 0
    /// the cache stays empty for good.
    pub fn new(capacity: i32) -> (cache: Self)
        requires
            capacity >= 0,
        ensures
            cache.wf(),
            cache@ == CacheView::fresh(capacity as nat),
    {
        proof {
            lemma_nothing_is_well_formed();
        }
        LFUCache {
            len: 0,
            cap: capacity as usize,
            keys: HashMap::new(),
            freqs: HashMap::new(),
            head: None,
            model: Ghost(CacheView::fresh(capacity as nat)),
        }
    }

    /// Takes a live key out of the cache. Returns its record, and the handle
    /// of the bucket after which a bucket of the key's old frequency would
    /// now have to stand.
    fn detach_node(&mut self, key: i32) -> (r: (Node, Option<u64>))
        requires
            old(self).wf(),
            old(self)@.index.contains_key(key),
        ensures
            final(self).wf(),
            final(self)@ == old(self)@.remove(key),
            r.0.key == key,
            r.0.val == old(self)@.index[key].value,
            r.0.freq as nat == old(self)@.index[key].frequency,
            r.1 == predecessor(final(self)@.buckets, old(self)@.index[key].frequency),
    {
        let ghost m = self.model@;
        let ghost bs = m.buckets;
        let ghost p = place_of(bs, key).0;
        let ghost j = place_of(bs, key).1;
        let ghost row = bs[p].keys;
        proof {
            lemma_place_of(bs, key);
            lemma_no_duplicates(bs, m.index, p);
            lemma_detach_at(bs, p, j);
            lemma_remove_coherent_at(bs, m.index, m.clock, p, j);
            lemma_entry_record(self.keys@, m.index, key);
            lemma_bucket_record(self.freqs@, self.keys@, bs, p);
            assert(m.index[bs[p].keys[j]].frequency == bs[p].frequency);
            assert(1 <= bs[p].frequency <= frequency_limit());
        }
        let f = node_at(&self.keys, key).freq;
        let bucket = bucket_at(&self.freqs, f);
        let anchor = bucket.prev;
        let (node, bucket) = unlink_entry(&mut self.keys, bucket, key, Ghost(row), Ghost(j));
        if bucket.head.is_none() {
            unlink_bucket(&mut self.freqs, &mut self.head, f, Ghost(bs), Ghost(p));
        } else {
            self.freqs.insert(f, bucket);
        }
        self.len = self.len - 1;
        self.model = Ghost(m.remove(key));
        proof {
            let after = self.model@.buckets;
            lemma_mirrors_after_unlink(old(self).keys@, self.keys@, m.index, key);
            lemma_rows_after_unlink(old(self).keys@, self.keys@, bs, m.index, p, j, after);
            if row.len() == 1 {
                lemma_anchors_after_drop(old(self).freqs@, self.freqs@, bs, p);
                lemma_rank_after_drop(bs, p);
            } else {
                lemma_anchors_after_trim(old(self).freqs@, self.freqs@, bs, p, j);
                lemma_rank_at(after, p);
                if p > 0 {
                    assert(after[p - 1] == bs[p - 1]);
                }
                assert(after[0].frequency == bs[0].frequency);
            }
        }
        (node, anchor)
    }

    /// Lets a key that is not live enter with the given value and frequency,
    /// as the last entry of the bucket of that frequency. `anchor` names the
    /// bucket after which that bucket stands or has to be put.
    fn attach_node(&mut self, key: i32, value: i32, f: u64, anchor: Option<u64>)
        requires
            old(self).wf(),
            !old(self)@.index.contains_key(key),
            old(self)@.size() < old(self)@.capacity,
            f >= 1,
            anchor == predecessor(old(self)@.buckets, f as nat),
        ensures
            final(self).wf(),
            final(self)@ == old(self)@.insert(key, value, f as nat),
    {
        let ghost m = self.model@;
        let ghost bs = m.buckets;
        let ghost p = rank(bs, f as nat);
        proof {
            lemma_rank_bounds(bs, f as nat);
            lemma_handles(bs);
            lemma_attach_at(bs, f as nat, key, p);
            lemma_insert_coherent(bs, m.index, m.clock, key, value, f as nat);
            lemma_entry_record(self.keys@, m.index, key);
            if p > 0 {
                lemma_bucket_record(self.freqs@, self.keys@, bs, p - 1);
            }
            if p < bs.len() {
                lemma_bucket_record(self.freqs@, self.keys@, bs, p);
                assert(bs[p].keys.len() > 0);
                assert(m.index.contains_key(bs[p].keys[bs[p].keys.len() - 1]));
                assert(1 <= bs[p].frequency <= frequency_limit());
            }
        }
        let succ = match anchor {
            Some(before) => bucket_at(&self.freqs, before).next,
            None => self.head,
        };
        let mut node = Node::new(key, value);
        node.freq = f;
        let found = match succ {
            Some(g) => g == f,
            None => false,
        };
        assert(found == has_bucket(bs, f as nat));
        if found {
            let bucket = bucket_at(&self.freqs, f);
            let last = bucket.tail.unwrap();
            set_next(&mut self.keys, last, Some(key));
            node.prev = Some(last);
            self.freqs.insert(f, Freq { tail: Some(key), ..bucket });
        } else {
            link_bucket(
                &mut self.freqs,
                &mut self.head,
                f,
                key,
                anchor,
                succ,
                Ghost(bs),
                Ghost(p),
            );
        }
        let ghost between = self.keys@;
        self.keys.insert(key, node);
        self.len = self.len + 1;
        self.model = Ghost(m.insert(key, value, f as nat));
        proof {
            let after = self.model@.buckets;
            lemma_mirrors_after_insert(
                old(self).keys@,
                between,
                self.keys@,
                m.index,
                node,
                m.clock,
            );
            if found {
                lemma_rows_after_append(old(self).keys@, self.keys@, bs, m.index, p, node);
                lemma_anchors_after_append(old(self).freqs@, self.freqs@, bs, p, key);
                assert(after[0].frequency == bs[0].frequency);
            } else {
                lemma_rows_after_single(
                    old(self).keys@,
                    self.keys@,
                    bs,
                    m.index,
                    p,
                    f as nat,
                    node,
                );
                lemma_anchors_after_splice(old(self).freqs@, self.freqs@, bs, p, f, key);
            }
        }
    }

    /// Promotes a live key after an access: the key leaves its bucket, its
    /// frequency goes up by one step, and it becomes the last entry of the
    /// bucket of its new frequency, with `value` as its payload.
    fn move_node(&mut self, key: i32, value: i32)
        requires
            old(self).wf(),
            old(self)@.index.contains_key(key),
        ensures
            final(self).wf(),
            final(self)@ == old(self)@.touch(key, value),
    {
        let (node, before) = self.detach_node(key);
        let f = node.freq;
        let raised = if f < u64::MAX {
            f + 1
        } else {
            f
        };
        proof {
            let m = self.model@;
            lemma_live_bucket(self.freqs@, m.buckets, f);
            lemma_anchor_step(m.buckets, f as nat);
            assert(m.index.dom().finite());
            assert(old(self)@.index.len() <= old(self)@.capacity);
        }
        let anchor = if raised > f && self.freqs.contains_key(&f) {
            Some(f)
        } else {
            before
        };
        self.attach_node(key, value, raised, anchor);
    }

    /// Makes room for one entry: the first entry of the lowest bucket leaves
    /// the cache.
    fn invalidate(&mut self)
        requires
            old(self).wf(),
            old(self)@.size() > 0,
        ensures
            final(self).wf(),
            final(self)@ == old(self)@.evict(),
    {
        proof {
            let m = self.model@;
            lemma_occupied(m);
            lemma_bucket_record(self.freqs@, self.keys@, m.buckets, 0);
            assert(m.index.contains_key(m.buckets[0].keys[0]));
        }
        let lowest = self.head.unwrap();
        let key = bucket_at(&self.freqs, lowest).head.unwrap();
        let _ = self.detach_node(key);
    }

    /// Lets a key that is not live enter the cache with frequency 1, as the
    /// most recently touched entry of that frequency.
    fn add_new(&mut self, key: i32, value: i32)
        requires
            old(self).wf(),
            !old(self)@.index.contains_key(key),
            old(self)@.size() < old(self)@.capacity,
        ensures
            final(self).wf(),
            final(self)@ == old(self)@.enter(key, value),
    {
        proof {
            let bs = self.model@.buckets;
            lemma_rank_is(bs, 1, 0);
        }
        self.attach_node(key, value, 1, None);
    }

    /// Looks `key` up. A hit returns the value and counts as an access: the
    /// key's frequency goes up by one step and it becomes the most recently
    /// touched key of its new frequency. A miss changes nothing.
    pub fn lookup(&mut self, key: i32) -> (found: Option<i32>)
        requires
            old(self).wf(),
        ensures
            final(self).wf(),
            found == old(self)@.answer(key),
            final(self)@ == old(self)@.get(key),
    {
        proof {
            lemma_entry_record(self.keys@, self.model@.index, key);
        }
        let found = match self.keys.get(&key) {
            Some(node) => Some(node.val),
            None => None,
        };
        match found {
            Some(value) => {
                self.move_node(key, value);
            },
            None => {},
        }
        found
    }

    /// Looks `key` up as `lookup` does, and returns `MISS` where `lookup`
    /// finds nothing. A stored value equal to `MISS` cannot be told from a
    /// miss by the result.
    pub fn get(&mut self, key: i32) -> (value: i32)
        requires
            old(self).wf(),
        ensures
            final(self).wf(),
            value == match old(self)@.answer(key) {
                Some(v) => v,
                None => MISS,
            },
            final(self)@ == old(self)@.get(key),
    {
        match self.lookup(key) {
            Some(value) => value,
            None => MISS,
        }
    }

    /// Stores `value` under `key`. A cache of capacity 0 ignores the call. A
    /// live key keeps its place in the cache and is accessed once more. A
    /// new key enters with frequency 1, after the victim has left if the
    /// cache was full.
    pub fn put(&mut self, key: i32, value: i32)
        requires
            old(self).wf(),
        ensures
            final(self).wf(),
            final(self)@ == old(self)@.put(key, value),
            final(self)@.size() <= final(self)@.capacity,
    {
        if self.cap == 0 {
            return ;
        }
        proof {
            lemma_entry_record(self.keys@, self.model@.index, key);
        }
        if self.keys.contains_key(&key) {
            self.move_node(key, value);
        } else {
            if self.len == self.cap {
                proof {
                    lemma_occupied(self.model@);
                }
                self.invalidate();
            }
            self.add_new(key, value);
        }
    }

    /// The number of live entries.
    pub fn len(&self) -> (n: usize)
        requires
            self.wf(),
        ensures
            n as nat == self@.size(),
    {
        self.len
    }

    /// The number of entries the cache may hold.
    pub fn capacity(&self) -> (n: usize)
        requires
            self.wf(),
        ensures
            n as nat == self@.capacity,
    {
        self.cap
    }

    /// Whether `key` is live. This is no access: nothing changes.
    pub fn contains(&self, key: i32) -> (live: bool)
        requires
            self.wf(),
        ensures
            live == self@.index.contains_key(key),
    {
        proof {
            lemma_entry_record(self.keys@, self.model@.index, key);
        }
        self.keys.contains_key(&key)
    }

    /// The access frequency of `key`, if it is live. This is no access:
    /// nothing changes.
    pub fn frequency(&self, key: i32) -> (found: Option<u64>)
        requires
            self.wf(),
        ensures
            found.is_some() == self@.index.contains_key(key),
            found.is_some() ==> found.unwrap() as nat == self@.index[key].frequency,
    {
        proof {
            lemma_entry_record(self.keys@, self.model@.index, key);
        }
        match self.keys.get(&key) {
            Some(node) => Some(node.freq),
            None => None,
        }
    }

    /// The frequency of the lowest bucket: the reference from which eviction
    /// starts. There is none exactly if the cache is empty.
    pub fn lowest_frequency(&self) -> (found: Option<u64>)
        requires
            self.wf(),
        ensures
            found.is_none() == (self@.size() == 0),
            found.is_none() == (self@.buckets.len() == 0),
            found.is_some() ==> found.unwrap() as nat == self@.buckets[0].frequency,
    {
        proof {
            let m = self.model@;
            if m.size() > 0 {
                lemma_occupied(m);
            }
            if m.buckets.len() > 0 {
                assert(m.buckets[0].keys.len() > 0);
                assert(m.index.contains_key(m.buckets[0].keys[0]));
                assert(1 <= m.buckets[0].frequency <= frequency_limit());
            }
        }
        self.head
    }

    /// The key that the next eviction removes, if the cache holds any.
    pub fn victim(&self) -> (found: Option<i32>)
        requires
            self.wf(),
        ensures
            found.is_none() == (self@.size() == 0),
            found.is_some() ==> found.unwrap() == self@.victim(),
    {
        proof {
            let m = self.model@;
            if m.size() > 0 {
                lemma_occupied(m);
            }
            if m.buckets.len() > 0 {
                assert(m.buckets[0].keys.len() > 0);
                assert(m.index.contains_key(m.buckets[0].keys[0]));
                lemma_bucket_record(self.freqs@, self.keys@, m.buckets, 0);
            }
        }
        match self.head {
            Some(lowest) => bucket_at(&self.freqs, lowest).head,
            None => None,
        }
    }

    /// All entries with key, value and frequency, in the order in
    /// which they would leave. This is no access: nothing changes.
    pub fn entries(&self) -> (all: Vec<Item>)
        requires
            self.wf(),
        ensures
            all@.len() == self@.size(),
            all@.len() == eviction_order(self@.buckets).len(),
            forall|i: int|
                #![trigger all@[i]]
                #![trigger eviction_order(self@.buckets)[i]]
                0 <= i < all@.len() ==> {
                    let key = eviction_order(self@.buckets)[i];
                    &&& self@.index.contains_key(key)
                    &&& all@[i].key == key
                    &&& all@[i].value == self@.index[key].value
                    &&& all@[i].frequency as nat == self@.index[key].frequency
                },
    {
        let ghost m = self.model@;
        let ghost bs = m.buckets;
        let mut all: Vec<Item> = Vec::new();
        let mut bucket = self.head;
        let ghost mut i: int = 0;
        proof {
            assert(bs.take(0) =~= Seq::<Bucket>::empty());
        }
        while bucket.is_some()
            invariant
                self.wf(),
                m == self.model@,
                bs == m.buckets,
                0 <= i <= bs.len(),
                bucket == (if i < bs.len() {
                    Some(handle(bs[i].frequency))
                } else {
                    None
                }),
                listing(all@, eviction_order(bs.take(i)), m),
            decreases bs.len() - i,
        {
            let f = bucket.unwrap();
            proof {
                lemma_bucket_record(self.freqs@, self.keys@, bs, i);
            }
            let record = bucket_at(&self.freqs, f);
            let ghost row = bs[i].keys;
            let ghost done = eviction_order(bs.take(i));
            let mut entry = record.head;
            let ghost mut j: int = 0;
            proof {
                assert(done + row.take(0) =~= done);
                assert(row.len() > 0);
            }
            while entry.is_some()
                invariant
                    self.wf(),
                    m == self.model@,
                    bs == m.buckets,
                    0 <= i < bs.len(),
                    row == bs[i].keys,
                    row_linked(self.keys@, row),
                    0 <= j <= row.len(),
                    entry == (if j < row.len() {
                        Some(row[j])
                    } else {
                        None
                    }),
                    listing(all@, done + row.take(j), m),
                decreases row.len() - j,
            {
                let key = entry.unwrap();
                proof {
                    assert(m.index.contains_key(bs[i].keys[j]));
                    lemma_entry_record(self.keys@, m.index, key);
                    if j + 1 < row.len() {
                        assert(self.keys@[row[j]].next == Some(row[j + 1]));
                    }
                }
                let node = node_at(&self.keys, key);
                let ghost listed_so_far = all@;
                all.push(Item { key, value: node.val, frequency: node.freq });
                entry = node.next;
                proof {
                    let before = done + row.take(j);
                    let after = done + row.take(j + 1);
                    assert(after =~= before.push(key));
                    lemma_listing_grows(
                        listed_so_far,
                        before,
                        m,
                        Item { key, value: node.val, frequency: node.freq },
                    );
                    j = j + 1;
                }
            }
            proof {
                assert(row.take(j) =~= row);
                assert(bs.take(i + 1).drop_last() =~= bs.take(i));
                assert(bs.take(i + 1)[i] == bs[i]);
                i = i + 1;
            }
            bucket = record.next;
        }
        proof {
            assert(bs.take(i) =~= bs);
            lemma_eviction_order(m);
        }
        all
    }

    /// A well-formed cache is in a state that satisfies the invariant of the
    /// model.
    pub proof fn lemma_view_inv(&self)
        requires
            self.wf(),
        ensures
            self@.inv(),
    {
    }

    /// Drops every entry. The capacity stays.
    pub fn clear(&mut self)
        requires
            old(self).wf(),
        ensures
            final(self).wf(),
            final(self)@ == old(self)@.clear(),
    {
        self.keys.clear();
        self.freqs.clear();
        self.head = None;
        self.len = 0;
        self.model = Ghost(self.model@.clear());
        proof {
            lemma_nothing_is_well_formed();
        }
    }
}

} // verus!
