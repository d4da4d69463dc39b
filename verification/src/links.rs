//! How the records of the two indexes are linked, and what each step of
//! relinking keeps.
//!
//! The entries of a bucket form a chain through the key index; the buckets
//! form a chain through the frequency index. The predicates here say that
//! these chains run as the model's buckets do; the lemmas say what is left
//! of that after a record has been cut out or spliced in.

use crate::lfu::Item;
use crate::model::{
    ascending, has_bucket, indexed, lemma_one_place, lemma_rank_at, lemma_rank_bounds,
    lemma_rank_is, populated, rank, recency_ordered, Bucket, CacheView, Entry,
};
use std::collections::HashMap;
use vstd::prelude::*;

verus! {

/// One cached key with its value, its access frequency, and its neighbours
/// in the chain of its bucket.
#[derive(Clone, Copy, Debug)]
pub(crate) struct Node {
    pub(crate) key: i32,
    pub(crate) val: i32,
    pub(crate) freq: u64,
    pub(crate) next: Option<i32>,
    pub(crate) prev: Option<i32>,
}

impl Node {
    /// An entry that has just entered the cache and belongs to no chain yet.
    pub(crate) fn new(key: i32, value: i32) -> (node: Self)
        ensures
            node == (Node { key, val: value, freq: 1, next: None, prev: None }),
    {
        Node { key, val: value, freq: 1, next: None, prev: None }
    }
}

/// One frequency bucket: the ends of its chain of entries, and its
/// neighbours in the chain of buckets.
#[derive(Clone, Copy, Debug)]
pub(crate) struct Freq {
    pub(crate) f: u64,
    pub(crate) head: Option<i32>,
    pub(crate) tail: Option<i32>,
    pub(crate) next: Option<u64>,
    pub(crate) prev: Option<u64>,
}

impl Freq {
    /// A bucket for the given frequency, without entries and without
    /// neighbours.
    pub(crate) fn new(frequency: u64) -> (bucket: Self)
        ensures
            bucket == (Freq { f: frequency, head: None, tail: None, next: None, prev: None }),
    {
        Freq { f: frequency, head: None, tail: None, next: None, prev: None }
    }
}

/// The handle of the bucket of frequency `f`.
pub(crate) open spec fn handle(f: nat) -> u64 {
    f as u64
}

/// The entries of one bucket are chained in the order of `row`.
pub(crate) open spec fn row_linked(keys: Map<i32, Node>, row: Seq<i32>) -> bool {
    &&& forall|j: int| 0 <= j < row.len() ==> keys.contains_key(#[trigger] row[j])
    &&& forall|j: int, k: int|
        0 <= j && k == j + 1 && k < row.len() ==> keys[#[trigger] row[j]].next == Some(
            #[trigger] row[k],
        ) && keys[row[k]].prev == Some(row[j])
    &&& row.len() > 0 ==> keys[row[0]].prev.is_none() && keys[row[row.len() - 1]].next.is_none()
}

/// Every bucket's entries are chained in the order the model gives.
#[verifier::opaque]
pub(crate) open spec fn rows_linked(keys: Map<i32, Node>, bs: Seq<Bucket>) -> bool {
    forall|i: int| 0 <= i < bs.len() ==> row_linked(keys, (#[trigger] bs[i]).keys)
}

/// Every bucket record points at the first and the last entry of its row.
#[verifier::opaque]
pub(crate) open spec fn rows_anchored(freqs: Map<u64, Freq>, bs: Seq<Bucket>) -> bool {
    forall|i: int|
        0 <= i < bs.len() ==> {
            let h = handle((#[trigger] bs[i]).frequency);
            &&& freqs.contains_key(h)
            &&& freqs[h].head == Some(bs[i].keys[0])
            &&& freqs[h].tail == Some(bs[i].keys[bs[i].keys.len() - 1])
        }
}

/// The bucket records are chained in the order of `bs`.
#[verifier::opaque]
pub(crate) open spec fn chain_linked(freqs: Map<u64, Freq>, bs: Seq<Bucket>) -> bool {
    &&& forall|i: int|
        0 <= i < bs.len() ==> {
            let h = handle((#[trigger] bs[i]).frequency);
            freqs.contains_key(h) && freqs[h].f == h
        }
    &&& forall|i: int, j: int|
        0 <= i && j == i + 1 && j < bs.len() ==> {
            let h = handle((#[trigger] bs[i]).frequency);
            let g = handle((#[trigger] bs[j]).frequency);
            freqs[h].next == Some(g) && freqs[g].prev == Some(h)
        }
    &&& bs.len() > 0 ==> freqs[handle(bs[0].frequency)].prev.is_none() && freqs[handle(
        bs[bs.len() - 1].frequency,
    )].next.is_none()
}

/// The frequency index holds no record of a bucket that has left the chain.
#[verifier::opaque]
pub(crate) open spec fn only_live(freqs: Map<u64, Freq>, bs: Seq<Bucket>) -> bool {
    forall|h: u64| #[trigger] freqs.contains_key(h) ==> has_bucket(bs, h as nat)
}

/// The key index holds exactly the modelled entries.
#[verifier::opaque]
pub(crate) open spec fn mirrors(keys: Map<i32, Node>, index: Map<i32, Entry>) -> bool {
    &&& keys.dom() =~= index.dom()
    &&& forall|k: i32| #[trigger]
        keys.contains_key(k) ==> {
            &&& keys[k].key == k
            &&& keys[k].val == index[k].value
            &&& keys[k].freq as nat == index[k].frequency
        }
}

/// The reference to the lowest bucket that goes with the chain `bs`.
pub(crate) open spec fn lowest(bs: Seq<Bucket>) -> Option<u64> {
    if bs.len() == 0 {
        None
    } else {
        Some(handle(bs[0].frequency))
    }
}

/// Two records of the same entry that differ at most in their links.
pub(crate) open spec fn same_payload(a: Node, b: Node) -> bool {
    a.key == b.key && a.val == b.val && a.freq == b.freq
}

/// The record of a live key.
pub(crate) fn node_at(keys: &HashMap<i32, Node>, key: i32) -> (node: Node)
    requires
        keys@.contains_key(key),
    ensures
        node == keys@[key],
{
    *keys.get(&key).unwrap()
}

/// The record of a live bucket.
pub(crate) fn bucket_at(freqs: &HashMap<u64, Freq>, f: u64) -> (bucket: Freq)
    requires
        freqs@.contains_key(f),
    ensures
        bucket == freqs@[f],
{
    *freqs.get(&f).unwrap()
}

/// Redirects the forward link of an entry.
pub(crate) fn set_next(keys: &mut HashMap<i32, Node>, key: i32, next: Option<i32>)
    requires
        old(keys)@.contains_key(key),
    ensures
        final(keys)@ == old(keys)@.insert(key, Node { next, ..old(keys)@[key] }),
{
    let node = node_at(keys, key);
    keys.insert(key, Node { next, ..node });
}

/// Redirects the backward link of an entry.
pub(crate) fn set_prev(keys: &mut HashMap<i32, Node>, key: i32, prev: Option<i32>)
    requires
        old(keys)@.contains_key(key),
    ensures
        final(keys)@ == old(keys)@.insert(key, Node { prev, ..old(keys)@[key] }),
{
    let node = node_at(keys, key);
    keys.insert(key, Node { prev, ..node });
}

/// Redirects the forward link of a bucket.
pub(crate) fn set_bucket_next(freqs: &mut HashMap<u64, Freq>, f: u64, next: Option<u64>)
    requires
        old(freqs)@.contains_key(f),
    ensures
        final(freqs)@ == old(freqs)@.insert(f, Freq { next, ..old(freqs)@[f] }),
{
    let bucket = bucket_at(freqs, f);
    freqs.insert(f, Freq { next, ..bucket });
}

/// Redirects the backward link of a bucket.
pub(crate) fn set_bucket_prev(freqs: &mut HashMap<u64, Freq>, f: u64, prev: Option<u64>)
    requires
        old(freqs)@.contains_key(f),
    ensures
        final(freqs)@ == old(freqs)@.insert(f, Freq { prev, ..old(freqs)@[f] }),
{
    let bucket = bucket_at(freqs, f);
    freqs.insert(f, Freq { prev, ..bucket });
}

/// Takes the entry `key` out of the key index and out of the chain of its
/// bucket, whose record is `bucket` and whose entries are `row`. Returns the
/// entry's record and the bucket's record with its ends brought up to date.
pub(crate) fn unlink_entry(
    keys: &mut HashMap<i32, Node>,
    bucket: Freq,
    key: i32,
    Ghost(row): Ghost<Seq<i32>>,
    Ghost(j): Ghost<int>,
) -> (r: (Node, Freq))
    requires
        row_linked(old(keys)@, row),
        row.no_duplicates(),
        0 <= j < row.len(),
        row[j] == key,
        bucket.head == Some(row[0]),
        bucket.tail == Some(row[row.len() - 1]),
    ensures
        r.0 == old(keys)@[key],
        final(keys)@.dom() =~= old(keys)@.dom().remove(key),
        forall|k: i32| #[trigger]
            final(keys)@.contains_key(k) ==> same_payload(final(keys)@[k], old(keys)@[k]),
        forall|k: i32| #[trigger]
            final(keys)@.contains_key(k) && !row.contains(k) ==> final(keys)@[k] == old(keys)@[k],
        row_linked(final(keys)@, row.remove(j)),
        r.1 == (Freq {
            head: if row.len() == 1 {
                None
            } else {
                Some(row.remove(j)[0])
            },
            tail: if row.len() == 1 {
                None
            } else {
                Some(row.remove(j)[row.len() - 2])
            },
            ..bucket
        }),
{
    assert(old(keys)@.contains_key(row[j]));
    let node = keys.remove(&key).unwrap();
    let mut bucket = bucket;
    match node.prev {
        Some(before) => {
            assert(before == row[j - 1]) by {
                if j > 0 {
                    assert(old(keys)@[row[j - 1]].next == Some(row[j]));
                }
            }
            set_next(keys, before, node.next);
        },
        None => {
            bucket.head = node.next;
        },
    }
    match node.next {
        Some(after) => {
            assert(after == row[j + 1]) by {
                if j < row.len() - 1 {
                    assert(old(keys)@[row[j]].next == Some(row[j + 1]));
                }
            }
            set_prev(keys, after, node.prev);
        },
        None => {
            bucket.tail = node.prev;
        },
    }
    proof {
        let rest = row.remove(j);
        assert forall|x: int| 0 <= x < rest.len() implies #[trigger] rest[x] == row[if x < j {
            x
        } else {
            x + 1
        }] by {}
        assert forall|x: int| 0 <= x < rest.len() implies keys@.contains_key(
            #[trigger] rest[x],
        ) by {
            assert(old(keys)@.contains_key(row[if x < j { x } else { x + 1 }]));
        }
        assert forall|x: int, y: int| 0 <= x && y == x + 1 && y < rest.len() implies keys@[#[trigger] rest[x]].next
            == Some(#[trigger] rest[y]) && keys@[rest[y]].prev == Some(rest[x]) by {
            let x0 = if x < j { x } else { x + 1 };
            let y0 = if y < j { y } else { y + 1 };
            assert(rest[x] == row[x0] && rest[y] == row[y0]);
            if y0 == x0 + 1 {
                assert(old(keys)@[row[x0]].next == Some(row[y0]));
            } else {
                assert(old(keys)@[row[x0]].next == Some(row[j]));
                assert(old(keys)@[row[j]].next == Some(row[y0]));
            }
        }
        if rest.len() > 0 {
            assert(rest[0] == row[if 0 < j { 0int } else { 1int }]);
            assert(rest[rest.len() - 1] == row[if rest.len() - 1 < j {
                rest.len() - 1
            } else {
                rest.len() as int
            }]);
            if j == 0 {
                assert(old(keys)@[row[0]].next == Some(row[1]));
            }
            if j == row.len() - 1 {
                assert(old(keys)@[row[j - 1]].next == Some(row[j]));
            }
        }
        assert forall|k: i32| #[trigger] keys@.contains_key(k) && !row.contains(k) implies keys@[k]
            == old(keys)@[k] by {
            if j > 0 {
                assert(row.contains(row[j - 1]));
            }
            if j < row.len() - 1 {
                assert(row.contains(row[j + 1]));
            }
        }
    }
    (node, bucket)
}

/// Takes the bucket of frequency `f`, which stands at place `p` of the chain
/// `bs`, out of the chain and out of the frequency index.
pub(crate) fn unlink_bucket(
    freqs: &mut HashMap<u64, Freq>,
    head: &mut Option<u64>,
    f: u64,
    Ghost(bs): Ghost<Seq<Bucket>>,
    Ghost(p): Ghost<int>,
)
    requires
        chain_linked(old(freqs)@, bs),
        only_live(old(freqs)@, bs),
        populated(bs),
        ascending(bs),
        *old(head) == lowest(bs),
        0 <= p < bs.len(),
        bs[p].frequency == f as nat,
    ensures
        chain_linked(final(freqs)@, bs.remove(p)),
        only_live(final(freqs)@, bs.remove(p)),
        *final(head) == lowest(bs.remove(p)),
        final(freqs)@.dom() =~= old(freqs)@.dom().remove(f),
        forall|h: u64| #[trigger]
            final(freqs)@.contains_key(h) ==> final(freqs)@[h].head == old(freqs)@[h].head
                && final(freqs)@[h].tail == old(freqs)@[h].tail,
{
    proof {
        reveal(rows_linked);
        reveal(rows_anchored);
        reveal(chain_linked);
        reveal(only_live);
        reveal(mirrors);
    }
    proof {
        lemma_handles(bs);
        assert(handle(bs[p].frequency) == f);
        if p > 0 {
            assert(old(freqs)@[handle(bs[p - 1].frequency)].next == Some(handle(bs[p].frequency)));
        }
        if p < bs.len() - 1 {
            assert(old(freqs)@[handle(bs[p].frequency)].next == Some(
                handle(bs[p + 1].frequency),
            ));
        }
    }
    let bucket = freqs.remove(&f).unwrap();
    match bucket.prev {
        Some(before) => {
            set_bucket_next(freqs, before, bucket.next);
        },
        None => {
            *head = bucket.next;
        },
    }
    match bucket.next {
        Some(after) => {
            set_bucket_prev(freqs, after, bucket.prev);
        },
        None => {},
    }
    proof {
        lemma_unlink_bucket(old(freqs)@, freqs@, bs, p);
    }
}

/// Distinct buckets of a well-formed chain have distinct handles, and each
/// handle stands for its frequency.
pub(crate) proof fn lemma_handles(bs: Seq<Bucket>)
    requires
        populated(bs),
        ascending(bs),
    ensures
        forall|i: int| 0 <= i < bs.len() ==> handle((#[trigger] bs[i]).frequency) as nat == bs[i].frequency,
        forall|i: int, j: int|
            0 <= i < bs.len() && 0 <= j < bs.len() && i != j ==> handle(
                (#[trigger] bs[i]).frequency,
            ) != handle((#[trigger] bs[j]).frequency),
{
    assert forall|i: int, j: int| 0 <= i < bs.len() && 0 <= j < bs.len() && i != j implies handle(
        (#[trigger] bs[i]).frequency,
    ) != handle((#[trigger] bs[j]).frequency) by {
        if i < j {
            assert(bs[i].frequency < bs[j].frequency);
        } else {
            assert(bs[j].frequency < bs[i].frequency);
        }
    }
}

/// The frequency index after the bucket at place `p` has been cut out of the
/// chain `bs`.
pub(crate) open spec fn without_bucket(before: Map<u64, Freq>, bs: Seq<Bucket>, p: int) -> Map<u64, Freq> {
    let f = handle(bs[p].frequency);
    let cut = before.remove(f);
    let left = if p > 0 {
        let h = handle(bs[p - 1].frequency);
        cut.insert(h, Freq { next: before[f].next, ..cut[h] })
    } else {
        cut
    };
    if p < bs.len() - 1 {
        let g = handle(bs[p + 1].frequency);
        left.insert(g, Freq { prev: before[f].prev, ..left[g] })
    } else {
        left
    }
}

/// Cutting a bucket out of the chain leaves a chain.
pub(crate) proof fn lemma_unlink_bucket(before: Map<u64, Freq>, after: Map<u64, Freq>, bs: Seq<Bucket>, p: int)
    requires
        chain_linked(before, bs),
        only_live(before, bs),
        populated(bs),
        ascending(bs),
        0 <= p < bs.len(),
        after == without_bucket(before, bs, p),
    ensures
        chain_linked(after, bs.remove(p)),
        only_live(after, bs.remove(p)),
        after.dom() =~= before.dom().remove(handle(bs[p].frequency)),
        forall|h: u64| #[trigger]
            after.contains_key(h) ==> after[h].head == before[h].head && after[h].tail
                == before[h].tail,
{
    reveal(rows_linked);
    reveal(rows_anchored);
    reveal(chain_linked);
    reveal(only_live);
    reveal(mirrors);
    lemma_handles(bs);
    let rest = bs.remove(p);
    let f = handle(bs[p].frequency);
    assert forall|i: int| 0 <= i < rest.len() implies #[trigger] rest[i] == bs[if i < p {
        i
    } else {
        i + 1
    }] by {}
    if p > 0 {
        assert(before.contains_key(handle(bs[p - 1].frequency)));
        assert(before[handle(bs[p - 1].frequency)].next == Some(handle(bs[p].frequency)));
    }
    if p < bs.len() - 1 {
        assert(before.contains_key(handle(bs[p + 1].frequency)));
        assert(before[handle(bs[p].frequency)].next == Some(handle(bs[p + 1].frequency)));
    }
    assert forall|i: int| 0 <= i < rest.len() implies {
        let h = handle((#[trigger] rest[i]).frequency);
        after.contains_key(h) && after[h].f == h
    } by {
        let i0 = if i < p { i } else { i + 1 };
        assert(rest[i] == bs[i0]);
        assert(before.contains_key(handle(bs[i0].frequency)));
    }
    assert forall|i: int, j: int| 0 <= i && j == i + 1 && j < rest.len() implies {
        let h = handle((#[trigger] rest[i]).frequency);
        let g = handle((#[trigger] rest[j]).frequency);
        after[h].next == Some(g) && after[g].prev == Some(h)
    } by {
        let i0 = if i < p { i } else { i + 1 };
        let j0 = if j < p { j } else { j + 1 };
        assert(rest[i] == bs[i0] && rest[j] == bs[j0]);
        if j0 == i0 + 1 {
            assert(before[handle(bs[i0].frequency)].next == Some(handle(bs[j0].frequency)));
        } else {
            assert(before[handle(bs[i0].frequency)].next == Some(handle(bs[p].frequency)));
            assert(before[handle(bs[p].frequency)].next == Some(handle(bs[j0].frequency)));
        }
    }
    if rest.len() > 0 {
        assert(rest[0] == bs[if 0 < p { 0int } else { 1int }]);
        assert(rest[rest.len() - 1] == bs[if rest.len() - 1 < p {
            rest.len() - 1
        } else {
            rest.len() as int
        }]);
    }
    assert forall|a: int, b: int| 0 <= a < b < rest.len() implies rest[a].frequency
        < rest[b].frequency by {
        assert(rest[a] == bs[if a < p { a } else { a + 1 }]);
        assert(rest[b] == bs[if b < p { b } else { b + 1 }]);
    }
    assert forall|h: u64| #[trigger] after.contains_key(h) implies has_bucket(rest, h as nat) by {
        assert(before.contains_key(h));
        let i0 = rank(bs, h as nat);
        lemma_rank_bounds(bs, h as nat);
        assert(bs[i0].frequency == h as nat);
        assert(i0 != p);
        let i = if i0 < p { i0 } else { i0 - 1 };
        assert(rest[i] == bs[i0]);
        lemma_rank_at(rest, i);
    }
}

/// Puts a new bucket of frequency `f`, with `key` as its only entry, at place
/// `p` of the chain `bs`: behind the bucket `anchor` and before `succ`.
pub(crate) fn link_bucket(
    freqs: &mut HashMap<u64, Freq>,
    head: &mut Option<u64>,
    f: u64,
    key: i32,
    anchor: Option<u64>,
    succ: Option<u64>,
    Ghost(bs): Ghost<Seq<Bucket>>,
    Ghost(p): Ghost<int>,
)
    requires
        chain_linked(old(freqs)@, bs),
        only_live(old(freqs)@, bs),
        populated(bs),
        ascending(bs),
        *old(head) == lowest(bs),
        f >= 1,
        0 <= p <= bs.len(),
        forall|i: int| 0 <= i < p ==> (#[trigger] bs[i]).frequency < f as nat,
        p < bs.len() ==> bs[p].frequency > f as nat,
        anchor == (if p == 0 {
            None
        } else {
            Some(handle(bs[p - 1].frequency))
        }),
        succ == (if p == bs.len() {
            None
        } else {
            Some(handle(bs[p].frequency))
        }),
    ensures
        chain_linked(
            final(freqs)@,
            bs.insert(p, Bucket { frequency: f as nat, keys: seq![key] }),
        ),
        only_live(final(freqs)@, bs.insert(p, Bucket { frequency: f as nat, keys: seq![key] })),
        *final(head) == lowest(bs.insert(p, Bucket { frequency: f as nat, keys: seq![key] })),
        final(freqs)@.dom() =~= old(freqs)@.dom().insert(f),
        final(freqs)@[f].head == Some(key),
        final(freqs)@[f].tail == Some(key),
        forall|h: u64| #[trigger]
            old(freqs)@.contains_key(h) ==> final(freqs)@[h].head == old(freqs)@[h].head
                && final(freqs)@[h].tail == old(freqs)@[h].tail,
{
    proof {
        reveal(rows_linked);
        reveal(rows_anchored);
        reveal(chain_linked);
        reveal(only_live);
        reveal(mirrors);
    }
    proof {
        lemma_handles(bs);
        if p > 0 {
            assert(old(freqs)@.contains_key(handle(bs[p - 1].frequency)));
        }
        if p < bs.len() {
            assert(old(freqs)@.contains_key(handle(bs[p].frequency)));
        }
        let single = Bucket { frequency: f as nat, keys: seq![key] };
        assert(bs.insert(p, single)[0] == if p == 0 { single } else { bs[0] });
    }
    let mut bucket = Freq::new(f);
    bucket.head = Some(key);
    bucket.tail = Some(key);
    bucket.prev = anchor;
    bucket.next = succ;
    freqs.insert(f, bucket);
    match anchor {
        Some(before) => {
            set_bucket_next(freqs, before, Some(f));
        },
        None => {
            *head = Some(f);
        },
    }
    match succ {
        Some(after) => {
            set_bucket_prev(freqs, after, Some(f));
        },
        None => {},
    }
    proof {
        lemma_link_bucket(old(freqs)@, freqs@, bs, p, f, key);
    }
}

/// The frequency index after a bucket of frequency `f` with the single entry
/// `key` has been spliced into the chain `bs` at place `p`.
pub(crate) open spec fn with_bucket(before: Map<u64, Freq>, bs: Seq<Bucket>, p: int, f: u64, key: i32) -> Map<
    u64,
    Freq,
> {
    let anchor = if p == 0 {
        None
    } else {
        Some(handle(bs[p - 1].frequency))
    };
    let succ = if p == bs.len() {
        None
    } else {
        Some(handle(bs[p].frequency))
    };
    let placed = before.insert(
        f,
        Freq { f, head: Some(key), tail: Some(key), prev: anchor, next: succ },
    );
    let left = if p > 0 {
        let h = handle(bs[p - 1].frequency);
        placed.insert(h, Freq { next: Some(f), ..placed[h] })
    } else {
        placed
    };
    if p < bs.len() {
        let g = handle(bs[p].frequency);
        left.insert(g, Freq { prev: Some(f), ..left[g] })
    } else {
        left
    }
}

/// Splicing a bucket into the chain at the rank of its frequency leaves a
/// chain.
pub(crate) proof fn lemma_link_bucket(
    before: Map<u64, Freq>,
    after: Map<u64, Freq>,
    bs: Seq<Bucket>,
    p: int,
    f: u64,
    key: i32,
)
    requires
        chain_linked(before, bs),
        only_live(before, bs),
        populated(bs),
        ascending(bs),
        f >= 1,
        0 <= p <= bs.len(),
        forall|i: int| 0 <= i < p ==> (#[trigger] bs[i]).frequency < f as nat,
        p < bs.len() ==> bs[p].frequency > f as nat,
        after == with_bucket(before, bs, p, f, key),
    ensures
        chain_linked(after, bs.insert(p, Bucket { frequency: f as nat, keys: seq![key] })),
        only_live(after, bs.insert(p, Bucket { frequency: f as nat, keys: seq![key] })),
        after.dom() =~= before.dom().insert(f),
        after[f].head == Some(key),
        after[f].tail == Some(key),
        forall|h: u64| #[trigger]
            before.contains_key(h) ==> after[h].head == before[h].head && after[h].tail
                == before[h].tail,
{
    reveal(rows_linked);
    reveal(rows_anchored);
    reveal(chain_linked);
    reveal(only_live);
    reveal(mirrors);
    lemma_handles(bs);
    let single = Bucket { frequency: f as nat, keys: seq![key] };
    let grown = bs.insert(p, single);
    assert forall|i: int| 0 <= i < grown.len() implies #[trigger] grown[i] == (if i < p {
        bs[i]
    } else if i == p {
        single
    } else {
        bs[i - 1]
    }) by {}
    assert(!before.contains_key(f)) by {
        if before.contains_key(f) {
            lemma_rank_is(bs, f as nat, p);
        }
    }
    if p > 0 {
        assert(before.contains_key(handle(bs[p - 1].frequency)));
    }
    if p < bs.len() {
        assert(before.contains_key(handle(bs[p].frequency)));
        assert(bs[p].frequency > f as nat);
    }
    if 0 < p < bs.len() {
        assert(before[handle(bs[p - 1].frequency)].next == Some(handle(bs[p].frequency)));
    }
    assert forall|a: int, b: int| 0 <= a < b < grown.len() implies grown[a].frequency
        < grown[b].frequency by {
        if a != p {
            assert(grown[a] == bs[if a < p { a } else { a - 1 }]);
        }
        if b != p {
            assert(grown[b] == bs[if b < p { b } else { b - 1 }]);
        }
        if a == p {
            assert(bs[p].frequency <= bs[b - 1].frequency);
        }
    }
    assert forall|i: int| 0 <= i < grown.len() implies {
        let h = handle((#[trigger] grown[i]).frequency);
        after.contains_key(h) && after[h].f == h
    } by {
        if i != p {
            let i0 = if i < p { i } else { i - 1 };
            assert(grown[i] == bs[i0]);
            assert(before.contains_key(handle(bs[i0].frequency)));
        }
    }
    assert forall|i: int, j: int| 0 <= i && j == i + 1 && j < grown.len() implies {
        let h = handle((#[trigger] grown[i]).frequency);
        let g = handle((#[trigger] grown[j]).frequency);
        after[h].next == Some(g) && after[g].prev == Some(h)
    } by {
        if i != p && j != p {
            let i0 = if i < p { i } else { i - 1 };
            let j0 = if j < p { j } else { j - 1 };
            assert(grown[i] == bs[i0] && grown[j] == bs[j0]);
            assert(before[handle(bs[i0].frequency)].next == Some(handle(bs[j0].frequency)));
            assert(before.contains_key(handle(bs[i0].frequency)));
            assert(before.contains_key(handle(bs[j0].frequency)));
        } else if i == p {
            assert(grown[j] == bs[p]);
        } else {
            assert(grown[i] == bs[p - 1]);
        }
    }
    if p > 0 {
        assert(grown[0] == bs[0]);
    }
    if p < bs.len() {
        assert(grown[grown.len() - 1] == bs[bs.len() - 1]);
    }
    assert forall|h: u64| #[trigger] after.contains_key(h) implies has_bucket(
        grown,
        h as nat,
    ) by {
        if h == f {
            lemma_rank_at(grown, p);
        } else {
            assert(before.contains_key(h));
            let i0 = rank(bs, h as nat);
            lemma_rank_bounds(bs, h as nat);
            let i = if i0 < p { i0 } else { i0 + 1 };
            assert(grown[i] == bs[i0]);
            lemma_rank_at(grown, i);
        }
    }
}

/// The handle of the bucket that stands just before the rank of `f`.
pub(crate) open spec fn predecessor(bs: Seq<Bucket>, f: nat) -> Option<u64> {
    let p = rank(bs, f);
    if p == 0 {
        None
    } else {
        Some(handle(bs[p - 1].frequency))
    }
}

/// A chain of entries stays a chain as long as its records are left alone.
pub(crate) proof fn lemma_row_frame(before: Map<i32, Node>, after: Map<i32, Node>, row: Seq<i32>)
    requires
        row_linked(before, row),
        forall|x: int|
            0 <= x < row.len() ==> after.contains_key(#[trigger] row[x]) && after[row[x]]
                == before[row[x]],
    ensures
        row_linked(after, row),
{
    reveal(rows_linked);
    reveal(rows_anchored);
    reveal(chain_linked);
    reveal(only_live);
    reveal(mirrors);
    assert forall|j: int, k: int| 0 <= j && k == j + 1 && k < row.len() implies after[#[trigger] row[j]].next
        == Some(#[trigger] row[k]) && after[row[k]].prev == Some(row[j]) by {
        assert(before[row[j]].next == Some(row[k]));
    }
}

/// Different buckets list different keys.
pub(crate) proof fn lemma_rows_apart(bs: Seq<Bucket>, index: Map<i32, Entry>, i: int, p: int)
    requires
        ascending(bs),
        indexed(bs, index),
        recency_ordered(bs, index),
        0 <= i < bs.len(),
        0 <= p < bs.len(),
        i != p,
    ensures
        forall|x: int| 0 <= x < bs[i].keys.len() ==> !bs[p].keys.contains(#[trigger] bs[i].keys[x]),
{
    assert forall|x: int| 0 <= x < bs[i].keys.len() implies !bs[p].keys.contains(
        #[trigger] bs[i].keys[x],
    ) by {
        if bs[p].keys.contains(bs[i].keys[x]) {
            let y = choose|y: int| 0 <= y < bs[p].keys.len() && bs[p].keys[y] == bs[i].keys[x];
            lemma_one_place(bs, index, i, x, p, y);
        }
    }
}

/// A chain of buckets stays a chain when records change at most in the ends
/// of their rows and the frequencies stay in place.
pub(crate) proof fn lemma_chain_kept(
    before: Map<u64, Freq>,
    after: Map<u64, Freq>,
    bs: Seq<Bucket>,
    cs: Seq<Bucket>,
)
    requires
        chain_linked(before, bs),
        only_live(before, bs),
        populated(bs),
        ascending(bs),
        bs.len() == cs.len(),
        forall|i: int| 0 <= i < bs.len() ==> (#[trigger] bs[i]).frequency == cs[i].frequency,
        after.dom() =~= before.dom(),
        forall|h: u64| #[trigger]
            before.contains_key(h) ==> after[h].f == before[h].f && after[h].prev
                == before[h].prev && after[h].next == before[h].next,
    ensures
        chain_linked(after, cs),
        only_live(after, cs),
{
    reveal(rows_linked);
    reveal(rows_anchored);
    reveal(chain_linked);
    reveal(only_live);
    reveal(mirrors);
    assert forall|i: int| 0 <= i < cs.len() implies {
        let h = handle((#[trigger] cs[i]).frequency);
        after.contains_key(h) && after[h].f == h
    } by {
        assert(before.contains_key(handle(bs[i].frequency)));
    }
    assert forall|i: int, j: int| 0 <= i && j == i + 1 && j < cs.len() implies {
        let h = handle((#[trigger] cs[i]).frequency);
        let g = handle((#[trigger] cs[j]).frequency);
        after[h].next == Some(g) && after[g].prev == Some(h)
    } by {
        assert(before.contains_key(handle(bs[i].frequency)));
        assert(before.contains_key(handle(bs[j].frequency)));
    }
    if cs.len() > 0 {
        assert(before.contains_key(handle(bs[0].frequency)));
        assert(before.contains_key(handle(bs[bs.len() - 1].frequency)));
    }
    assert forall|a: int, b: int| 0 <= a < b < cs.len() implies cs[a].frequency
        < cs[b].frequency by {
        assert(bs[a].frequency < bs[b].frequency);
    }
    assert forall|h: u64| #[trigger] after.contains_key(h) implies has_bucket(cs, h as nat) by {
        assert(before.contains_key(h));
        lemma_rank_bounds(bs, h as nat);
        let i = rank(bs, h as nat);
        assert(cs[i].frequency == bs[i].frequency);
        lemma_rank_at(cs, i);
    }
}

/// After an entry has been unlinked, every row that the model now has is
/// chained in the key index.
pub(crate) proof fn lemma_rows_after_unlink(
    before: Map<i32, Node>,
    after: Map<i32, Node>,
    bs: Seq<Bucket>,
    index: Map<i32, Entry>,
    p: int,
    j: int,
    cs: Seq<Bucket>,
)
    requires
        ascending(bs),
        indexed(bs, index),
        recency_ordered(bs, index),
        rows_linked(before, bs),
        0 <= p < bs.len(),
        0 <= j < bs[p].keys.len(),
        before.dom() =~= index.dom(),
        after.dom() =~= before.dom().remove(bs[p].keys[j]),
        forall|k: i32| #[trigger]
            after.contains_key(k) && !bs[p].keys.contains(k) ==> after[k] == before[k],
        row_linked(after, bs[p].keys.remove(j)),
        cs == (if bs[p].keys.len() == 1 {
            bs.remove(p)
        } else {
            bs.update(p, Bucket { frequency: bs[p].frequency, keys: bs[p].keys.remove(j) })
        }),
    ensures
        rows_linked(after, cs),
{
    reveal(rows_linked);
    reveal(rows_anchored);
    reveal(chain_linked);
    reveal(only_live);
    reveal(mirrors);
    assert forall|i: int| 0 <= i < cs.len() implies row_linked(after, (#[trigger] cs[i]).keys) by {
        let i0 = if bs[p].keys.len() == 1 && i >= p { i + 1 } else { i };
        if i0 != p {
            assert(cs[i] == bs[i0]);
            let row = bs[i0].keys;
            lemma_rows_apart(bs, index, i0, p);
            assert(row_linked(before, bs[i0].keys));
            assert forall|x: int| 0 <= x < row.len() implies after.contains_key(#[trigger] row[x])
                && after[row[x]] == before[row[x]] by {
                assert(index.contains_key(bs[i0].keys[x]));
                assert(!bs[p].keys.contains(bs[i0].keys[x]));
                assert(bs[p].keys.contains(bs[p].keys[j]));
            }
            lemma_row_frame(before, after, row);
        }
    }
}

/// Bucket records whose ends were left alone still point at the ends of
/// their rows after another bucket has left the chain.
pub(crate) proof fn lemma_anchors_after_drop(
    before: Map<u64, Freq>,
    after: Map<u64, Freq>,
    bs: Seq<Bucket>,
    p: int,
)
    requires
        rows_anchored(before, bs),
        populated(bs),
        ascending(bs),
        0 <= p < bs.len(),
        after.dom() =~= before.dom().remove(handle(bs[p].frequency)),
        forall|h: u64| #[trigger]
            after.contains_key(h) ==> after[h].head == before[h].head && after[h].tail
                == before[h].tail,
    ensures
        rows_anchored(after, bs.remove(p)),
{
    reveal(rows_linked);
    reveal(rows_anchored);
    reveal(chain_linked);
    reveal(only_live);
    reveal(mirrors);
    lemma_handles(bs);
    let cs = bs.remove(p);
    assert forall|i: int| 0 <= i < cs.len() implies {
        let h = handle((#[trigger] cs[i]).frequency);
        &&& after.contains_key(h)
        &&& after[h].head == Some(cs[i].keys[0])
        &&& after[h].tail == Some(cs[i].keys[cs[i].keys.len() - 1])
    } by {
        let i0 = if i < p { i } else { i + 1 };
        assert(cs[i] == bs[i0]);
        assert(before.contains_key(handle(bs[i0].frequency)));
    }
}

/// Once the bucket at place `p` has left the chain, its frequency ranks at
/// `p`.
pub(crate) proof fn lemma_rank_after_drop(bs: Seq<Bucket>, p: int)
    requires
        ascending(bs),
        0 <= p < bs.len(),
    ensures
        rank(bs.remove(p), bs[p].frequency) == p,
        predecessor(bs.remove(p), bs[p].frequency) == (if p == 0 {
            None
        } else {
            Some(handle(bs[p - 1].frequency))
        }),
{
    let cs = bs.remove(p);
    assert forall|i: int| 0 <= i < p implies (#[trigger] cs[i]).frequency < bs[p].frequency by {
        assert(cs[i] == bs[i]);
    }
    if p < cs.len() {
        assert(cs[p] == bs[p + 1]);
    }
    lemma_rank_is(cs, bs[p].frequency, p);
    if p > 0 {
        assert(cs[p - 1] == bs[p - 1]);
    }
}

/// After one entry of a row has been unlinked and the record of its bucket
/// brought up to date, every bucket record points at the ends of its row and
/// the chain of buckets is what it was.
pub(crate) proof fn lemma_anchors_after_trim(
    before: Map<u64, Freq>,
    after: Map<u64, Freq>,
    bs: Seq<Bucket>,
    p: int,
    j: int,
)
    requires
        rows_anchored(before, bs),
        chain_linked(before, bs),
        only_live(before, bs),
        populated(bs),
        ascending(bs),
        0 <= p < bs.len(),
        0 <= j < bs[p].keys.len(),
        bs[p].keys.len() > 1,
        after == before.insert(
            handle(bs[p].frequency),
            Freq {
                head: Some(bs[p].keys.remove(j)[0]),
                tail: Some(bs[p].keys.remove(j)[bs[p].keys.len() - 2]),
                ..before[handle(bs[p].frequency)]
            },
        ),
    ensures
        rows_anchored(
            after,
            bs.update(p, Bucket { frequency: bs[p].frequency, keys: bs[p].keys.remove(j) }),
        ),
        chain_linked(
            after,
            bs.update(p, Bucket { frequency: bs[p].frequency, keys: bs[p].keys.remove(j) }),
        ),
        only_live(
            after,
            bs.update(p, Bucket { frequency: bs[p].frequency, keys: bs[p].keys.remove(j) }),
        ),
{
    reveal(rows_linked);
    reveal(rows_anchored);
    reveal(chain_linked);
    reveal(only_live);
    reveal(mirrors);
    lemma_handles(bs);
    let cs = bs.update(p, Bucket { frequency: bs[p].frequency, keys: bs[p].keys.remove(j) });
    assert(before.contains_key(handle(bs[p].frequency)));
    assert forall|i: int| 0 <= i < cs.len() implies {
        let h = handle((#[trigger] cs[i]).frequency);
        &&& after.contains_key(h)
        &&& after[h].head == Some(cs[i].keys[0])
        &&& after[h].tail == Some(cs[i].keys[cs[i].keys.len() - 1])
    } by {
        assert(before.contains_key(handle(bs[i].frequency)));
    }
    lemma_chain_kept(before, after, bs, cs);
}

/// After a new entry has been chained to the end of the row at place `p`,
/// every row that the model now has is chained in the key index.
pub(crate) proof fn lemma_rows_after_append(
    before: Map<i32, Node>,
    after: Map<i32, Node>,
    bs: Seq<Bucket>,
    index: Map<i32, Entry>,
    p: int,
    node: Node,
)
    requires
        indexed(bs, index),
        populated(bs),
        ascending(bs),
        recency_ordered(bs, index),
        rows_linked(before, bs),
        before.dom() =~= index.dom(),
        0 <= p < bs.len(),
        !index.contains_key(node.key),
        node.next.is_none(),
        node.prev == Some(bs[p].keys[bs[p].keys.len() - 1]),
        after == before.insert(
            bs[p].keys[bs[p].keys.len() - 1],
            Node { next: Some(node.key), ..before[bs[p].keys[bs[p].keys.len() - 1]] },
        ).insert(node.key, node),
    ensures
        rows_linked(
            after,
            bs.update(p, Bucket { frequency: bs[p].frequency, keys: bs[p].keys.push(node.key) }),
        ),
{
    reveal(rows_linked);
    reveal(rows_anchored);
    reveal(chain_linked);
    reveal(only_live);
    reveal(mirrors);
    let old_row = bs[p].keys;
    let row = old_row.push(node.key);
    let n = old_row.len() as int;
    let cs = bs.update(p, Bucket { frequency: bs[p].frequency, keys: row });
    assert(n > 0);
    assert(index.contains_key(bs[p].keys[n - 1]));
    assert forall|i: int| 0 <= i < cs.len() implies row_linked(after, (#[trigger] cs[i]).keys) by {
        assert(row_linked(before, bs[i].keys));
        if i == p {
            assert forall|x: int| 0 <= x < row.len() implies after.contains_key(
                #[trigger] row[x],
            ) by {
                if x < n {
                    assert(before.contains_key(old_row[x]));
                }
            }
            assert forall|x: int, y: int| 0 <= x && y == x + 1 && y < row.len() implies after[#[trigger] row[x]].next
                == Some(#[trigger] row[y]) && after[row[y]].prev == Some(row[x]) by {
                assert(index.contains_key(bs[p].keys[x]));
                if y < n {
                    assert(index.contains_key(bs[p].keys[y]));
                    assert(before[old_row[x]].next == Some(old_row[y]));
                }
            }
            assert(index.contains_key(bs[p].keys[0]));
            assert(row[0] == old_row[0]);
        } else {
            let other = bs[i].keys;
            assert forall|x: int| 0 <= x < other.len() implies after.contains_key(
                #[trigger] other[x],
            ) && after[other[x]] == before[other[x]] by {
                assert(index.contains_key(bs[i].keys[x]));
                assert(index[bs[i].keys[x]].frequency == bs[i].frequency);
                if bs[i].keys[x] == bs[p].keys[n - 1] {
                    lemma_one_place(bs, index, i, x, p, n - 1);
                }
            }
            lemma_row_frame(before, after, other);
        }
    }
}

/// After a new entry has entered as the only one of a new bucket, every row
/// that the model now has is chained in the key index.
pub(crate) proof fn lemma_rows_after_single(
    before: Map<i32, Node>,
    after: Map<i32, Node>,
    bs: Seq<Bucket>,
    index: Map<i32, Entry>,
    p: int,
    f: nat,
    node: Node,
)
    requires
        indexed(bs, index),
        rows_linked(before, bs),
        before.dom() =~= index.dom(),
        0 <= p <= bs.len(),
        !index.contains_key(node.key),
        node.next.is_none(),
        node.prev.is_none(),
        after == before.insert(node.key, node),
    ensures
        rows_linked(after, bs.insert(p, Bucket { frequency: f, keys: seq![node.key] })),
{
    reveal(rows_linked);
    reveal(rows_anchored);
    reveal(chain_linked);
    reveal(only_live);
    reveal(mirrors);
    let single = Bucket { frequency: f, keys: seq![node.key] };
    let cs = bs.insert(p, single);
    assert forall|i: int| 0 <= i < cs.len() implies row_linked(after, (#[trigger] cs[i]).keys) by {
        if i == p {
            assert(cs[i] == single);
        } else {
            let i0 = if i < p { i } else { i - 1 };
            assert(cs[i] == bs[i0]);
            let other = bs[i0].keys;
            assert(row_linked(before, bs[i0].keys));
            assert forall|x: int| 0 <= x < other.len() implies after.contains_key(
                #[trigger] other[x],
            ) && after[other[x]] == before[other[x]] by {
                assert(index.contains_key(bs[i0].keys[x]));
            }
            lemma_row_frame(before, after, other);
        }
    }
}

/// After a key has been appended to the row at place `p` and the record of
/// its bucket brought up to date, every bucket record points at the ends of
/// its row and the chain of buckets is what it was.
pub(crate) proof fn lemma_anchors_after_append(
    before: Map<u64, Freq>,
    after: Map<u64, Freq>,
    bs: Seq<Bucket>,
    p: int,
    key: i32,
)
    requires
        rows_anchored(before, bs),
        chain_linked(before, bs),
        only_live(before, bs),
        populated(bs),
        ascending(bs),
        0 <= p < bs.len(),
        after == before.insert(
            handle(bs[p].frequency),
            Freq { tail: Some(key), ..before[handle(bs[p].frequency)] },
        ),
    ensures
        rows_anchored(
            after,
            bs.update(p, Bucket { frequency: bs[p].frequency, keys: bs[p].keys.push(key) }),
        ),
        chain_linked(
            after,
            bs.update(p, Bucket { frequency: bs[p].frequency, keys: bs[p].keys.push(key) }),
        ),
        only_live(
            after,
            bs.update(p, Bucket { frequency: bs[p].frequency, keys: bs[p].keys.push(key) }),
        ),
{
    reveal(rows_linked);
    reveal(rows_anchored);
    reveal(chain_linked);
    reveal(only_live);
    reveal(mirrors);
    lemma_handles(bs);
    let cs = bs.update(p, Bucket { frequency: bs[p].frequency, keys: bs[p].keys.push(key) });
    assert(before.contains_key(handle(bs[p].frequency)));
    assert(bs[p].keys.len() > 0);
    assert forall|i: int| 0 <= i < cs.len() implies {
        let h = handle((#[trigger] cs[i]).frequency);
        &&& after.contains_key(h)
        &&& after[h].head == Some(cs[i].keys[0])
        &&& after[h].tail == Some(cs[i].keys[cs[i].keys.len() - 1])
    } by {
        assert(before.contains_key(handle(bs[i].frequency)));
    }
    lemma_chain_kept(before, after, bs, cs);
}

/// Bucket records whose ends were left alone still point at the ends of
/// their rows after a new bucket has joined the chain.
pub(crate) proof fn lemma_anchors_after_splice(
    before: Map<u64, Freq>,
    after: Map<u64, Freq>,
    bs: Seq<Bucket>,
    p: int,
    f: u64,
    key: i32,
)
    requires
        rows_anchored(before, bs),
        0 <= p <= bs.len(),
        after.dom() =~= before.dom().insert(f),
        after[f].head == Some(key),
        after[f].tail == Some(key),
        forall|h: u64| #[trigger]
            before.contains_key(h) ==> after[h].head == before[h].head && after[h].tail
                == before[h].tail,
    ensures
        rows_anchored(after, bs.insert(p, Bucket { frequency: f as nat, keys: seq![key] })),
{
    reveal(rows_linked);
    reveal(rows_anchored);
    reveal(chain_linked);
    reveal(only_live);
    reveal(mirrors);
    let single = Bucket { frequency: f as nat, keys: seq![key] };
    let cs = bs.insert(p, single);
    assert forall|i: int| 0 <= i < cs.len() implies {
        let h = handle((#[trigger] cs[i]).frequency);
        &&& after.contains_key(h)
        &&& after[h].head == Some(cs[i].keys[0])
        &&& after[h].tail == Some(cs[i].keys[cs[i].keys.len() - 1])
    } by {
        if i == p {
            assert(cs[i] == single);
        } else {
            let i0 = if i < p { i } else { i - 1 };
            assert(cs[i] == bs[i0]);
            assert(before.contains_key(handle(bs[i0].frequency)));
        }
    }
}

/// What the key index holds for a live key.
pub(crate) proof fn lemma_entry_record(keys: Map<i32, Node>, index: Map<i32, Entry>, key: i32)
    requires
        mirrors(keys, index),
    ensures
        keys.dom() =~= index.dom(),
        index.contains_key(key) ==> {
            &&& keys.contains_key(key)
            &&& keys[key].key == key
            &&& keys[key].val == index[key].value
            &&& keys[key].freq as nat == index[key].frequency
        },
{
    reveal(mirrors);
}

/// What the frequency index holds for the bucket at place `p`, and how that
/// bucket's entries are chained.
pub(crate) proof fn lemma_bucket_record(
    freqs: Map<u64, Freq>,
    keys: Map<i32, Node>,
    bs: Seq<Bucket>,
    p: int,
)
    requires
        rows_anchored(freqs, bs),
        chain_linked(freqs, bs),
        rows_linked(keys, bs),
        0 <= p < bs.len(),
    ensures
        freqs.contains_key(handle(bs[p].frequency)),
        freqs[handle(bs[p].frequency)].f == handle(bs[p].frequency),
        freqs[handle(bs[p].frequency)].head == Some(bs[p].keys[0]),
        freqs[handle(bs[p].frequency)].tail == Some(bs[p].keys[bs[p].keys.len() - 1]),
        freqs[handle(bs[p].frequency)].prev == (if p == 0 {
            None
        } else {
            Some(handle(bs[p - 1].frequency))
        }),
        freqs[handle(bs[p].frequency)].next == (if p == bs.len() - 1 {
            None
        } else {
            Some(handle(bs[p + 1].frequency))
        }),
        row_linked(keys, bs[p].keys),
{
    reveal(rows_anchored);
    reveal(chain_linked);
    reveal(rows_linked);
    if p > 0 {
        assert(freqs[handle(bs[p - 1].frequency)].next == Some(handle(bs[p].frequency)));
    }
    if p < bs.len() - 1 {
        assert(freqs[handle(bs[p].frequency)].next == Some(handle(bs[p + 1].frequency)));
    }
}

/// The key index still holds exactly the modelled entries after one has
/// left and others have changed in their links only.
pub(crate) proof fn lemma_mirrors_after_unlink(
    before: Map<i32, Node>,
    after: Map<i32, Node>,
    index: Map<i32, Entry>,
    key: i32,
)
    requires
        mirrors(before, index),
        after.dom() =~= before.dom().remove(key),
        forall|k: i32| #[trigger] after.contains_key(k) ==> same_payload(after[k], before[k]),
    ensures
        mirrors(after, index.remove(key)),
{
    reveal(mirrors);
    assert forall|k: i32| #[trigger] after.contains_key(k) implies {
        &&& after[k].key == k
        &&& after[k].val == index.remove(key)[k].value
        &&& after[k].freq as nat == index.remove(key)[k].frequency
    } by {
        assert(before.contains_key(k));
    }
}

/// The key index still holds exactly the modelled entries after one has
/// entered and others have changed in their links only.
pub(crate) proof fn lemma_mirrors_after_insert(
    before: Map<i32, Node>,
    between: Map<i32, Node>,
    after: Map<i32, Node>,
    index: Map<i32, Entry>,
    node: Node,
    stamp: nat,
)
    requires
        mirrors(before, index),
        between.dom() =~= before.dom(),
        forall|k: i32| #[trigger]
            before.contains_key(k) ==> same_payload(between[k], before[k]),
        after == between.insert(node.key, node),
    ensures
        mirrors(
            after,
            index.insert(
                node.key,
                Entry { value: node.val, frequency: node.freq as nat, stamp },
            ),
        ),
{
    reveal(mirrors);
    let index2 = index.insert(
        node.key,
        Entry { value: node.val, frequency: node.freq as nat, stamp },
    );
    assert forall|k: i32| #[trigger] after.contains_key(k) implies {
        &&& after[k].key == k
        &&& after[k].val == index2[k].value
        &&& after[k].freq as nat == index2[k].frequency
    } by {
        if k != node.key {
            assert(before.contains_key(k));
        }
    }
}

/// `all` lists the entries of the keys `order`, in that order.
pub(crate) open spec fn listing(all: Seq<Item>, order: Seq<i32>, m: CacheView) -> bool {
    &&& all.len() == order.len()
    &&& forall|i: int|
        #![trigger all[i]]
        #![trigger order[i]]
        0 <= i < all.len() ==> {
            &&& m.index.contains_key(order[i])
            &&& all[i].key == order[i]
            &&& all[i].value == m.index[order[i]].value
            &&& all[i].frequency as nat == m.index[order[i]].frequency
        }
}

/// A listing stays one when the entry of one more key is added to it.
pub(crate) proof fn lemma_listing_grows(
    all: Seq<Item>,
    order: Seq<i32>,
    m: CacheView,
    next: Item,
)
    requires
        listing(all, order, m),
        m.index.contains_key(next.key),
        next.value == m.index[next.key].value,
        next.frequency as nat == m.index[next.key].frequency,
    ensures
        listing(all.push(next), order.push(next.key), m),
{
    let more = all.push(next);
    let longer = order.push(next.key);
    assert forall|i: int|
        #![trigger more[i]]
        #![trigger longer[i]]
        0 <= i < more.len() implies {
        &&& m.index.contains_key(longer[i])
        &&& more[i].key == longer[i]
        &&& more[i].value == m.index[longer[i]].value
        &&& more[i].frequency as nat == m.index[longer[i]].frequency
    } by {
        if i < all.len() {
            assert(more[i] == all[i]);
            assert(longer[i] == order[i]);
        }
    }
}

/// The frequency index has a record for `f` exactly if the chain has a
/// bucket of that frequency.
pub(crate) proof fn lemma_live_bucket(freqs: Map<u64, Freq>, bs: Seq<Bucket>, f: u64)
    requires
        chain_linked(freqs, bs),
        only_live(freqs, bs),
    ensures
        freqs.contains_key(f) <==> has_bucket(bs, f as nat),
{
    reveal(chain_linked);
    reveal(only_live);
    if has_bucket(bs, f as nat) {
        lemma_rank_bounds(bs, f as nat);
        assert(freqs.contains_key(handle(bs[rank(bs, f as nat)].frequency)));
    }
}

/// Where the bucket of the next frequency has to stand: behind the bucket
/// of frequency `f` if there is one, and else where that one would stand.
pub(crate) proof fn lemma_anchor_step(bs: Seq<Bucket>, f: nat)
    requires
        ascending(bs),
    ensures
        predecessor(bs, f + 1) == (if has_bucket(bs, f) {
            Some(handle(f))
        } else {
            predecessor(bs, f)
        }),
{
    let r = rank(bs, f);
    lemma_rank_bounds(bs, f);
    if has_bucket(bs, f) {
        assert forall|i: int| 0 <= i < r + 1 implies (#[trigger] bs[i]).frequency < f + 1 by {}
        if r + 1 < bs.len() {
            assert(bs[r].frequency < bs[r + 1].frequency);
        }
        lemma_rank_is(bs, f + 1, r + 1);
    } else {
        assert forall|i: int| 0 <= i < r implies (#[trigger] bs[i]).frequency < f + 1 by {}
        lemma_rank_is(bs, f + 1, r);
    }
}

/// Empty indexes realise the empty chain.
pub(crate) proof fn lemma_nothing_is_well_formed()
    ensures
        mirrors(Map::empty(), Map::empty()),
        rows_linked(Map::empty(), Seq::empty()),
        rows_anchored(Map::empty(), Seq::empty()),
        chain_linked(Map::empty(), Seq::empty()),
        only_live(Map::empty(), Seq::empty()),
{
    reveal(mirrors);
    reveal(rows_linked);
    reveal(rows_anchored);
    reveal(chain_linked);
    reveal(only_live);
}

} // verus!
