//! A bucketed map with per-bucket locking and a map-wide group lock.
//!
//! Each bucket is an independently guarded chain of key/value [`Item`]s;
//! a key's bucket is its value modulo the bucket count.  Every single-key
//! operation (`insert`, `get`, `get_mut`, `remove`) takes the map-wide
//! [`Mutex`] in group mode for its duration, so any number of them may
//! proceed together, while a full-table iteration takes it exclusively and
//! blocks the mutators until the iterator is finished.  Readers and writers
//! of one value are kept apart by the bucket's own value-level lock: `get`
//! holds it in group mode (so concurrent reads are allowed), `get_mut` and
//! the paths of `insert` and `remove` that touch an existing value hold it
//! exclusively.
//!
//! In this single-owner model the locks never see contention, so their
//! parking queues rest empty and every transient acquisition composes into
//! the closed-form lock transitions defined here ([`transient_group`],
//! [`transient_exclusive`] and friends).

use vstd::prelude::*;

use crate::mutex::DIRTY;
use crate::mutex::LOCKED;
use crate::mutex::LOCKED_GROUP;
use crate::mutex::LockView;
use crate::mutex::Mutex;
use crate::mutex::UNLOCKED;
use crate::mutex::exclusive_acquirable;
use crate::mutex::group_acquirable;

verus! {

/// The bucket flag when no chain update is in progress.
pub const BUCKET_AVAILABLE: bool = true;

/// The bucket flag while the chain is being relinked.
pub const BUCKET_UPDATING: bool = false;

/// How many buckets a map gets by default.
pub const DEFAULT_BUCKETS: usize = 256;

/// A node in a bucket's chain: one key with its value.
pub struct Item<V> {
    /// The entry's key.
    pub key: u64,
    /// The entry's value.
    pub value: V,
}

impl<V> Item<V> {
    /// Builds a chain node for one entry.
    pub fn new(key: u64, value: V) -> (it: Item<V>)
        ensures
            it.key == key,
            it.value == value,
    {
        Item { key, value }
    }
}

/// The bucket a key falls in, by key modulo bucket count.
pub open spec fn spec_bucket_of(key: u64, buckets: int) -> int {
    key as int % buckets
}

/// The first value stored under `key` in a chain, head first.
pub open spec fn chain_find<V>(s: Seq<Item<V>>, key: u64) -> Option<V>
    decreases s.len(),
{
    if s.len() == 0 {
        None
    } else if s[0].key == key {
        Some(s[0].value)
    } else {
        chain_find(s.skip(1), key)
    }
}

/// No key occurs twice in the chain.
pub open spec fn chain_unique<V>(s: Seq<Item<V>>) -> bool {
    forall|i: int, j: int|
        0 <= i < j < s.len() ==> (#[trigger] s[i]).key != (#[trigger] s[j]).key
}

/// Every key of the chain falls in bucket `b` of `n`.
pub open spec fn chain_in_bucket<V>(s: Seq<Item<V>>, b: int, n: int) -> bool {
    forall|i: int| 0 <= i < s.len() ==> spec_bucket_of((#[trigger] s[i]).key, n) == b
}

/// Searching is settled by the first match: a prefix without the key can be
/// skipped.
proof fn lemma_chain_find_skip<V>(s: Seq<Item<V>>, key: u64, i: int)
    requires
        0 <= i <= s.len(),
        forall|j: int| 0 <= j < i ==> (#[trigger] s[j]).key != key,
    ensures
        chain_find(s, key) == chain_find(s.skip(i), key),
    decreases i,
{
    if i == 0 {
        assert(s.skip(0) =~= s);
    } else {
        assert forall|j: int| 0 <= j < i - 1 implies (#[trigger] s.skip(1)[j]).key != key by {
            assert(s.skip(1)[j] == s[j + 1]);
        }
        lemma_chain_find_skip(s.skip(1), key, i - 1);
        assert(s.skip(1).skip(i - 1) =~= s.skip(i));
    }
}

/// A chain whose position `i` holds the first occurrence of its key answers
/// searches for that key at `i`.
proof fn lemma_chain_find_at<V>(s: Seq<Item<V>>, i: int)
    requires
        0 <= i < s.len(),
        forall|j: int| 0 <= j < i ==> (#[trigger] s[j]).key != s[i].key,
    ensures
        chain_find(s, s[i].key) == Some(s[i].value),
{
    lemma_chain_find_skip(s, s[i].key, i);
    assert(s.skip(i)[0] == s[i]);
}

/// A scan that found no match settles the search: the chain holds no such
/// key.
proof fn lemma_chain_find_none<V>(s: Seq<Item<V>>, key: u64)
    requires
        forall|j: int| 0 <= j < s.len() ==> (#[trigger] s[j]).key != key,
    ensures
        chain_find(s, key) == None::<V>,
{
    lemma_chain_find_skip(s, key, s.len() as int);
}

/// Replacing the value at the first occurrence of a key changes exactly the
/// searches for that key.
proof fn lemma_chain_find_update<V>(s: Seq<Item<V>>, i: int, it: Item<V>, key: u64)
    requires
        0 <= i < s.len(),
        it.key == s[i].key,
        forall|j: int| 0 <= j < i ==> (#[trigger] s[j]).key != it.key,
    ensures
        chain_find(s.update(i, it), key) == if key == it.key {
            Some(it.value)
        } else {
            chain_find(s, key)
        },
    decreases i,
{
    if i == 0 {
        assert(s.update(0, it).skip(1) =~= s.skip(1));
    } else {
        assert(s.update(i, it).skip(1) =~= s.skip(1).update(i - 1, it));
        assert(s.skip(1)[i - 1] == s[i]);
        lemma_chain_find_update(s.skip(1), i - 1, it, key);
        assert(s.update(i, it)[0] == s[0]);
    }
}

/// Unlinking the only occurrence of a key removes exactly that key from the
/// searches.
proof fn lemma_chain_find_remove<V>(s: Seq<Item<V>>, i: int, key: u64)
    requires
        0 <= i < s.len(),
        chain_unique(s),
    ensures
        chain_find(s.remove(i), key) == if key == s[i].key {
            None::<V>
        } else {
            chain_find(s, key)
        },
    decreases i,
{
    if i == 0 {
        assert(s.remove(0) =~= s.skip(1));
        if key == s[0].key {
            assert(forall|j: int|
                0 <= j < s.skip(1).len() ==> (#[trigger] s.skip(1)[j]).key != s[0].key);
            lemma_chain_find_none(s.skip(1), key);
        }
    } else {
        assert(s.remove(i).skip(1) =~= s.skip(1).remove(i - 1));
        assert(s.skip(1)[i - 1] == s[i]);
        assert(chain_unique(s.skip(1)));
        lemma_chain_find_remove(s.skip(1), i - 1, key);
        assert(s.remove(i)[0] == s[0]);
    }
}

/// Prepending an entry shadows nothing when its key is fresh.
proof fn lemma_chain_find_prepend<V>(s: Seq<Item<V>>, it: Item<V>, key: u64)
    ensures
        chain_find(s.insert(0, it), key) == if key == it.key {
            Some(it.value)
        } else {
            chain_find(s, key)
        },
{
    assert(s.insert(0, it)[0] == it);
    assert(s.insert(0, it).skip(1) =~= s);
}

/// The pairs a chain holds, head first.
pub open spec fn chain_pairs<V>(s: Seq<Item<V>>) -> Seq<(u64, V)> {
    s.map_values(|it: Item<V>| (it.key, it.value))
}

/// A lock's parking queues are empty and its guard bit is resting: the
/// shape every lock of an uncontended map keeps.
pub open spec fn lock_resting(l: LockView) -> bool {
    &&& l.parking_e == Seq::<u64>::empty()
    &&& l.parking_g == Seq::<u64>::empty()
    &&& !l.busy
}

/// A resting lock after a group acquisition immediately followed by its
/// release: only the state word may change, turning `DIRTY` when the group
/// counter drained.
pub open spec fn transient_group(pre: LockView) -> LockView {
    if pre.locked == 0 {
        LockView { state: DIRTY, ..pre }
    } else {
        LockView { state: LOCKED_GROUP, ..pre }
    }
}

/// A resting lock after an exclusive acquisition immediately followed by
/// its release.
pub open spec fn transient_exclusive(pre: LockView) -> LockView {
    LockView { state: UNLOCKED, inside_e: 0, ..pre }
}

/// A resting lock after a group acquisition that a guard goes on holding.
pub open spec fn group_taken(pre: LockView) -> LockView {
    LockView {
        state: LOCKED_GROUP,
        locked: pre.locked + 1,
        inside_g: pre.inside_g + 1,
        ..pre
    }
}

/// A resting lock after the guard's group unit is released.
pub open spec fn group_released(pre: LockView) -> LockView {
    LockView {
        state: if pre.locked == 1 {
            DIRTY
        } else {
            pre.state
        },
        locked: pre.locked - 1,
        inside_g: pre.inside_g - 1,
        ..pre
    }
}

/// A resting lock after an exclusive acquisition that a guard or iterator
/// goes on holding.
pub open spec fn exclusive_taken(pre: LockView) -> LockView {
    LockView { state: LOCKED, inside_e: 1, ..pre }
}

/// A resting lock after the exclusive holder releases it.
pub open spec fn exclusive_released(pre: LockView) -> LockView {
    LockView { state: UNLOCKED, inside_e: 0, ..pre }
}

/// One bucket: an independently guarded chain with a value-level lock.
struct Bucket<V> {
    head: Vec<Item<V>>,
    ref_locked: Mutex,
    state: bool,
}

impl<V> Bucket<V> {
    /// A fresh, empty bucket.
    fn new() -> (b: Bucket<V>)
        ensures
            b.head@ == Seq::<Item<V>>::empty(),
            b.ref_locked.wf(),
            b.ref_locked@ == crate::mutex::unlocked_lock_view(),
            b.state == BUCKET_AVAILABLE,
    {
        Bucket { head: Vec::new(), state: BUCKET_AVAILABLE, ref_locked: Mutex::new() }
    }

    /// Takes the bucket's chain flag.  A concurrent holder would make the
    /// caller back off; the single owner finds it free.
    fn lock(&mut self)
        requires
            old(self).state == BUCKET_AVAILABLE,
        ensures
            *final(self) == (Bucket { state: BUCKET_UPDATING, ..*old(self) }),
    {
        self.state = BUCKET_UPDATING;
    }

    /// Releases the bucket's chain flag.
    fn release(&mut self)
        ensures
            *final(self) == (Bucket { state: BUCKET_AVAILABLE, ..*old(self) }),
    {
        self.state = BUCKET_AVAILABLE;
    }
}

/// How many entries the buckets hold in all.
spec fn total_entries<V>(bs: Seq<Bucket<V>>) -> int
    decreases bs.len(),
{
    if bs.len() == 0 {
        0
    } else {
        total_entries(bs.drop_last()) + bs.last().head@.len()
    }
}

/// Replacing one bucket changes the total by the change of that bucket's
/// chain length.
proof fn lemma_total_entries_update<V>(bs: Seq<Bucket<V>>, b: int, nb: Bucket<V>)
    requires
        0 <= b < bs.len(),
    ensures
        total_entries(bs.update(b, nb)) == total_entries(bs) - bs[b].head@.len()
            + nb.head@.len(),
    decreases bs.len(),
{
    let upd = bs.update(b, nb);
    if b == bs.len() - 1 {
        assert(upd.drop_last() =~= bs.drop_last());
    } else {
        assert(upd.drop_last() =~= bs.drop_last().update(b, nb));
        lemma_total_entries_update(bs.drop_last(), b, nb);
        assert(upd.last() == bs.last());
    }
}

/// The total is at least any one bucket's chain length.
proof fn lemma_total_entries_bound<V>(bs: Seq<Bucket<V>>, b: int)
    requires
        0 <= b < bs.len(),
    ensures
        total_entries(bs) >= bs[b].head@.len(),
        total_entries(bs) >= 0,
    decreases bs.len(),
{
    lemma_total_entries_nonneg(bs.drop_last());
    if b == bs.len() - 1 {
        assert(bs.last() == bs[b]);
    } else {
        lemma_total_entries_bound(bs.drop_last(), b);
        assert(bs.drop_last()[b] == bs[b]);
    }
}

/// The total is never negative.
proof fn lemma_total_entries_nonneg<V>(bs: Seq<Bucket<V>>)
    ensures
        total_entries(bs) >= 0,
    decreases bs.len(),
{
    if bs.len() > 0 {
        lemma_total_entries_nonneg(bs.drop_last());
    }
}

/// Finds the first chain position holding `key`.
fn scan_chain<V>(items: &Vec<Item<V>>, key: u64) -> (r: Option<usize>)
    ensures
        match r {
            Some(i) => i < items@.len() && items@[i as int].key == key && forall|j: int|
                0 <= j < i ==> (#[trigger] items@[j]).key != key,
            None => forall|j: int| 0 <= j < items@.len() ==> (#[trigger] items@[j]).key != key,
        },
{
    let mut i: usize = 0;
    while i < items.len()
        invariant
            i <= items@.len(),
            forall|j: int| 0 <= j < i ==> (#[trigger] items@[j]).key != key,
        decreases items@.len() - i,
    {
        if items[i].key == key {
            return Some(i);
        }
        i = i + 1;
    }
    None
}

/// A bucketed map from `u64` keys to values, with one lock per bucket and a
/// map-wide group lock.
pub struct AtomicHashMap<V> {
    buckets: Vec<Bucket<V>>,
    lock: Mutex,
    len: usize,
    ref_count: usize,
}

impl<V> View for AtomicHashMap<V> {
    type V = Map<u64, V>;

    closed spec fn view(&self) -> Map<u64, V> {
        Map::new(
            |key: u64| chain_find(self.buckets@[spec_bucket_of(key, self.buckets@.len() as int)].head@, key)
                is Some,
            |key: u64| chain_find(self.buckets@[spec_bucket_of(key, self.buckets@.len() as int)].head@, key)->0,
        )
    }
}

impl<V> AtomicHashMap<V> {
    /// How many buckets the map was made with.
    pub closed spec fn bucket_count(&self) -> int {
        self.buckets@.len() as int
    }

    /// The map-wide lock's state.
    pub closed spec fn map_lock(&self) -> LockView {
        self.lock@
    }

    /// The value-level lock of bucket `b`.
    pub closed spec fn bucket_lock(&self, b: int) -> LockView {
        self.buckets@[b].ref_locked@
    }

    /// How many entries the map holds.
    pub closed spec fn spec_len(&self) -> int {
        self.len as int
    }

    /// The bucket `key` falls in.
    pub open spec fn bucket_of(&self, key: u64) -> int {
        spec_bucket_of(key, self.bucket_count())
    }

    /// The map invariant: at least one bucket; the map-wide lock and every
    /// bucket's lock are well formed and resting; every chain holds each
    /// key at most once, in the bucket the key falls in.
    pub closed spec fn wf(&self) -> bool {
        &&& self.buckets@.len() >= 1
        &&& self.ref_count == 1
        &&& self.len as int == total_entries(self.buckets@)
        &&& self.lock.wf()
        &&& lock_resting(self.lock@)
        &&& forall|b: int|
            0 <= b < self.buckets@.len() ==> (#[trigger] self.buckets@[b]).state
                == BUCKET_AVAILABLE
        &&& forall|b: int|
            0 <= b < self.buckets@.len() ==> (#[trigger] self.buckets@[b]).ref_locked.wf()
        &&& forall|b: int|
            0 <= b < self.buckets@.len() ==> lock_resting(
                (#[trigger] self.buckets@[b]).ref_locked@,
            )
        &&& forall|b: int|
            0 <= b < self.buckets@.len() ==> chain_unique((#[trigger] self.buckets@[b]).head@)
        &&& forall|b: int|
            0 <= b < self.buckets@.len() ==> chain_in_bucket(
                (#[trigger] self.buckets@[b]).head@,
                b,
                self.buckets@.len() as int,
            )
    }

    /// The map is well formed; spelled out for callers.
    pub open spec fn inv(&self) -> bool {
        self.wf()
    }

    /// Creates a map with the default bucket count.
    pub fn new() -> (m: AtomicHashMap<V>)
        ensures
            m.wf(),
            m@ == Map::<u64, V>::empty(),
            m.spec_len() == 0,
            m.bucket_count() == DEFAULT_BUCKETS,
            m.map_lock() == crate::mutex::unlocked_lock_view(),
    {
        Self::with_capacity(DEFAULT_BUCKETS)
    }

    /// Creates a map with the given bucket count; at least one bucket is
    /// needed, or no key would have a bucket to fall in.
    pub fn with_capacity(bucket_count: usize) -> (m: AtomicHashMap<V>)
        requires
            bucket_count >= 1,
        ensures
            m.wf(),
            m@ == Map::<u64, V>::empty(),
            m.spec_len() == 0,
            m.bucket_count() == bucket_count,
            m.map_lock() == crate::mutex::unlocked_lock_view(),
    {
        let mut buckets: Vec<Bucket<V>> = Vec::new();
        let mut i: usize = 0;
        while i < bucket_count
            invariant
                i <= bucket_count,
                buckets@.len() == i,
                forall|b: int|
                    0 <= b < i ==> (#[trigger] buckets@[b]).head@ == Seq::<Item<V>>::empty(),
                forall|b: int| 0 <= b < i ==> (#[trigger] buckets@[b]).state == BUCKET_AVAILABLE,
                forall|b: int| 0 <= b < i ==> (#[trigger] buckets@[b]).ref_locked.wf(),
                forall|b: int|
                    0 <= b < i ==> lock_resting((#[trigger] buckets@[b]).ref_locked@),
                total_entries(buckets@) == 0,
            decreases bucket_count - i,
        {
            let ghost prev = buckets@;
            buckets.push(Bucket::new());
            proof {
                assert(buckets@.drop_last() =~= prev);
                assert(buckets@.last().head@.len() == 0);
            }
            i = i + 1;
        }
        let m = AtomicHashMap { buckets, lock: Mutex::new(), len: 0, ref_count: 1 };
        proof {
            assert(m@ =~= Map::<u64, V>::empty());
        }
        m
    }

    /// How many entries the map holds.
    pub fn len(&self) -> (n: usize)
        ensures
            n == self.spec_len(),
    {
        self.len
    }

    /// How many handles share the map.  A single owner holds exactly one.
    pub fn get_ref_count(&self) -> (n: usize)
        requires
            self.wf(),
        ensures
            n == 1,
    {
        self.ref_count
    }

    /// The bucket index `key` falls in.
    fn find_bucket(&self, key: u64) -> (b: usize)
        requires
            self.wf(),
        ensures
            b == self.bucket_of(key),
            b < self.bucket_count(),
    {
        (key % (self.buckets.len() as u64)) as usize
    }

    /// Inserts an entry: a fresh key is prepended to its bucket's chain, an
    /// existing key has its value replaced in place under the bucket's
    /// value-level lock.  The map-wide lock is held in group mode for the
    /// duration, so inserts under different keys may proceed together while
    /// no full-table iteration runs.
    pub fn insert(&mut self, key: u64, value: V)
        requires
            old(self).wf(),
            old(self).spec_len() < usize::MAX,
            group_acquirable(old(self).map_lock()),
            old(self).map_lock().locked < usize::MAX,
            old(self)@.contains_key(key) ==> exclusive_acquirable(
                old(self).bucket_lock(old(self).bucket_of(key)),
            ),
        ensures
            final(self).wf(),
            final(self)@ == old(self)@.insert(key, value),
            final(self).bucket_count() == old(self).bucket_count(),
            final(self).spec_len() == old(self).spec_len() + (if old(self)@.contains_key(key) {
                0int
            } else {
                1int
            }),
            final(self).map_lock() == transient_group(old(self).map_lock()),
            forall|b: int|
                0 <= b < old(self).bucket_count() && b != old(self).bucket_of(key)
                    ==> final(self).bucket_lock(b) == old(self).bucket_lock(b),
            old(self)@.contains_key(key) ==> final(self).bucket_lock(old(self).bucket_of(key))
                == transient_exclusive(old(self).bucket_lock(old(self).bucket_of(key))),
            !old(self)@.contains_key(key) ==> final(self).bucket_lock(old(self).bucket_of(key))
                == old(self).bucket_lock(old(self).bucket_of(key)),
    {
        let b = self.find_bucket(key);
        let ghost pre = *self;
        let ghost n = self.buckets@.len() as int;
        self.lock.lock_group();
        let ghost pre_buckets = self.buckets@;
        let bucket = &mut self.buckets[b];
        bucket.lock();
        let found = scan_chain(&bucket.head, key);
        let existed = found.is_some();
        match found {
            Some(i) => {
                proof {
                    lemma_chain_find_at(pre_buckets[b as int].head@, i as int);
                    assert(pre@.contains_key(key));
                }
                // the old value is dropped under the value-level lock, so a
                // reader holding a guard is never overtaken
                bucket.ref_locked.lock_exclusive();
                bucket.ref_locked.unlock_exclusive();
                let it = &mut bucket.head[i];
                it.value = value;
            },
            None => {
                let item = Item::new(key, value);
                bucket.head.insert(0, item);
            },
        }
        bucket.release();
        proof {
            let bi = b as int;
            let pre_chain = pre_buckets[bi].head@;
            let new_chain = self.buckets@[bi].head@;
            assert(self.buckets@ =~= pre_buckets.update(bi, self.buckets@[bi]));
            lemma_total_entries_update(pre_buckets, bi, self.buckets@[bi]);
            if existed {
                let i = found->0 as int;
                assert(new_chain == pre_chain.update(i, (Item { key, value })));
                lemma_chain_find_at(pre_chain, i);
                assert forall|k: u64| true implies chain_find(new_chain, k) == (if k == key {
                    Some(value)
                } else {
                    chain_find(pre_chain, k)
                }) by {
                    lemma_chain_find_update(pre_chain, i, (Item { key, value }), k);
                }
                assert(chain_unique(new_chain)) by {
                    assert(forall|j: int|
                        0 <= j < new_chain.len() ==> (#[trigger] new_chain[j]).key == pre_chain[j].key);
                }
                assert(chain_in_bucket(new_chain, bi, n)) by {
                    assert(forall|j: int|
                        0 <= j < new_chain.len() ==> (#[trigger] new_chain[j]).key == pre_chain[j].key);
                }
            } else {
                lemma_chain_find_none(pre_chain, key);
                assert(new_chain == pre_chain.insert(0, (Item { key, value })));
                assert forall|k: u64| true implies chain_find(new_chain, k) == (if k == key {
                    Some(value)
                } else {
                    chain_find(pre_chain, k)
                }) by {
                    lemma_chain_find_prepend(pre_chain, (Item { key, value }), k);
                }
                assert(chain_unique(new_chain)) by {
                    assert(forall|j: int|
                        1 <= j < new_chain.len() ==> (#[trigger] new_chain[j]).key == pre_chain[j
                            - 1].key);
                    assert(new_chain[0].key == key);
                }
                assert(chain_in_bucket(new_chain, bi, n)) by {
                    assert(forall|j: int|
                        1 <= j < new_chain.len() ==> (#[trigger] new_chain[j]).key == pre_chain[j
                            - 1].key);
                    assert(new_chain[0].key == key);
                }
            }
        }
        if !existed {
            self.len = self.len + 1;
        }
        self.lock.unlock_group();
        proof {
            let bi = b as int;
            assert(pre@.contains_key(key) == existed);
            assert(self@ =~= pre@.insert(key, value)) by {
                assert forall|k: u64| #[trigger] self@.contains_key(k) || pre@.insert(key, value).contains_key(k) implies
                    self@.contains_key(k) && pre@.insert(key, value).contains_key(k)
                        && self@[k] == pre@.insert(key, value)[k] by {
                    if k != key {
                        if self.bucket_of(k) != bi {
                            assert(self.buckets@[self.bucket_of(k)] == pre.buckets@[self.bucket_of(
                                k,
                            )]);
                        }
                    }
                }
            }
        }
    }

    /// Looks a key up for reading.  On a hit the bucket's value-level lock
    /// is taken in group mode — concurrent readers of the bucket are
    /// welcome — and a scoped [`WatchGuardRef`] is returned; on a miss
    /// nothing is locked.  The map-wide lock is held in group mode for the
    /// duration.
    pub fn get(&mut self, key: u64) -> (r: Option<WatchGuardRef>)
        requires
            old(self).wf(),
            group_acquirable(old(self).map_lock()),
            old(self).map_lock().locked < usize::MAX,
            old(self)@.contains_key(key) ==> group_acquirable(
                old(self).bucket_lock(old(self).bucket_of(key)),
            ) && old(self).bucket_lock(old(self).bucket_of(key)).locked < usize::MAX,
        ensures
            final(self).wf(),
            final(self)@ == old(self)@,
            final(self).spec_len() == old(self).spec_len(),
            final(self).bucket_count() == old(self).bucket_count(),
            final(self).map_lock() == transient_group(old(self).map_lock()),
            forall|b: int|
                0 <= b < old(self).bucket_count() && b != old(self).bucket_of(key)
                    ==> final(self).bucket_lock(b) == old(self).bucket_lock(b),
            old(self)@.contains_key(key) ==> (r matches Some(g) && g.key() == key && g.bucket()
                == old(self).bucket_of(key) && final(self).bucket_lock(old(self).bucket_of(key))
                == group_taken(old(self).bucket_lock(old(self).bucket_of(key))) && g.valid(
                final(self),
            )),
            !old(self)@.contains_key(key) ==> r is None && final(self).bucket_lock(
                old(self).bucket_of(key),
            ) == old(self).bucket_lock(old(self).bucket_of(key)),
    {
        let b = self.find_bucket(key);
        let ghost pre = *self;
        self.lock.lock_group();
        let ghost pre_buckets = self.buckets@;
        let bucket = &mut self.buckets[b];
        bucket.lock();
        let found = scan_chain(&bucket.head, key);
        let r = match found {
            Some(i) => {
                proof {
                    lemma_chain_find_at(pre_buckets[b as int].head@, i as int);
                }
                bucket.ref_locked.lock_group();
                Some(WatchGuardRef { bucket: b, key })
            },
            None => {
                proof {
                    lemma_chain_find_none(pre_buckets[b as int].head@, key);
                }
                None
            },
        };
        bucket.release();
        proof {
            let bi = b as int;
            assert(self.buckets@ =~= pre_buckets.update(bi, self.buckets@[bi]));
            lemma_total_entries_update(pre_buckets, bi, self.buckets@[bi]);
        }
        self.lock.unlock_group();
        proof {
            assert(self@ =~= pre@);
        }
        r
    }

    /// Looks a key up for writing.  On a hit the bucket's value-level lock
    /// is taken exclusively and a scoped [`WatchGuardMut`] is returned; on a
    /// miss nothing is locked.  The map-wide lock is held in group mode for
    /// the duration.
    pub fn get_mut(&mut self, key: u64) -> (r: Option<WatchGuardMut>)
        requires
            old(self).wf(),
            group_acquirable(old(self).map_lock()),
            old(self).map_lock().locked < usize::MAX,
            old(self)@.contains_key(key) ==> exclusive_acquirable(
                old(self).bucket_lock(old(self).bucket_of(key)),
            ),
        ensures
            final(self).wf(),
            final(self)@ == old(self)@,
            final(self).spec_len() == old(self).spec_len(),
            final(self).bucket_count() == old(self).bucket_count(),
            final(self).map_lock() == transient_group(old(self).map_lock()),
            forall|b: int|
                0 <= b < old(self).bucket_count() && b != old(self).bucket_of(key)
                    ==> final(self).bucket_lock(b) == old(self).bucket_lock(b),
            old(self)@.contains_key(key) ==> (r matches Some(g) && g.key() == key && g.bucket()
                == old(self).bucket_of(key) && final(self).bucket_lock(old(self).bucket_of(key))
                == exclusive_taken(old(self).bucket_lock(old(self).bucket_of(key))) && g.valid(
                final(self),
            )),
            !old(self)@.contains_key(key) ==> r is None && final(self).bucket_lock(
                old(self).bucket_of(key),
            ) == old(self).bucket_lock(old(self).bucket_of(key)),
    {
        let b = self.find_bucket(key);
        let ghost pre = *self;
        self.lock.lock_group();
        let ghost pre_buckets = self.buckets@;
        let bucket = &mut self.buckets[b];
        bucket.lock();
        let found = scan_chain(&bucket.head, key);
        let r = match found {
            Some(i) => {
                proof {
                    lemma_chain_find_at(pre_buckets[b as int].head@, i as int);
                }
                bucket.ref_locked.lock_exclusive();
                Some(WatchGuardMut { bucket: b, key })
            },
            None => {
                proof {
                    lemma_chain_find_none(pre_buckets[b as int].head@, key);
                }
                None
            },
        };
        bucket.release();
        proof {
            let bi = b as int;
            assert(self.buckets@ =~= pre_buckets.update(bi, self.buckets@[bi]));
            lemma_total_entries_update(pre_buckets, bi, self.buckets@[bi]);
        }
        self.lock.unlock_group();
        proof {
            assert(self@ =~= pre@);
        }
        r
    }

    /// Removes a key: its chain node is unlinked, and the value is moved
    /// out under the bucket's value-level lock; a missing key changes
    /// nothing.  The map-wide lock is held in group mode for the duration.
    pub fn remove(&mut self, key: u64) -> (r: Option<V>)
        requires
            old(self).wf(),
            group_acquirable(old(self).map_lock()),
            old(self).map_lock().locked < usize::MAX,
            old(self)@.contains_key(key) ==> exclusive_acquirable(
                old(self).bucket_lock(old(self).bucket_of(key)),
            ),
        ensures
            final(self).wf(),
            final(self)@ == old(self)@.remove(key),
            final(self).bucket_count() == old(self).bucket_count(),
            final(self).spec_len() == old(self).spec_len() - (if old(self)@.contains_key(key) {
                1int
            } else {
                0int
            }),
            final(self).map_lock() == transient_group(old(self).map_lock()),
            forall|b: int|
                0 <= b < old(self).bucket_count() && b != old(self).bucket_of(key)
                    ==> final(self).bucket_lock(b) == old(self).bucket_lock(b),
            old(self)@.contains_key(key) ==> (r matches Some(v) && v == old(self)@[key] && final(self).bucket_lock(old(self).bucket_of(key)) == transient_exclusive(
                old(self).bucket_lock(old(self).bucket_of(key)),
            )),
            !old(self)@.contains_key(key) ==> r is None && final(self).bucket_lock(
                old(self).bucket_of(key),
            ) == old(self).bucket_lock(old(self).bucket_of(key)),
    {
        let b = self.find_bucket(key);
        let ghost pre = *self;
        self.lock.lock_group();
        let ghost pre_buckets = self.buckets@;
        let bucket = &mut self.buckets[b];
        bucket.lock();
        let found = scan_chain(&bucket.head, key);
        let r = match found {
            Some(i) => {
                proof {
                    lemma_chain_find_at(pre_buckets[b as int].head@, i as int);
                }
                // the node's value is moved out under the value-level lock,
                // so a reader holding a guard is never overtaken
                bucket.ref_locked.lock_exclusive();
                let item = bucket.head.remove(i);
                bucket.ref_locked.unlock_exclusive();
                Some(item.value)
            },
            None => {
                proof {
                    lemma_chain_find_none(pre_buckets[b as int].head@, key);
                }
                None
            },
        };
        bucket.release();
        proof {
            let bi = b as int;
            let pre_chain = pre_buckets[bi].head@;
            let new_chain = self.buckets@[bi].head@;
            assert(self.buckets@ =~= pre_buckets.update(bi, self.buckets@[bi]));
            lemma_total_entries_update(pre_buckets, bi, self.buckets@[bi]);
            if r is Some {
                let i = found->0 as int;
                assert forall|k: u64| true implies chain_find(new_chain, k) == (if k == key {
                    None::<V>
                } else {
                    chain_find(pre_chain, k)
                }) by {
                    lemma_chain_find_remove(pre_chain, i, k);
                }
                assert(chain_unique(new_chain)) by {
                    assert(forall|j: int|
                        0 <= j < i ==> (#[trigger] new_chain[j]).key == pre_chain[j].key);
                    assert(forall|j: int|
                        i <= j < new_chain.len() ==> (#[trigger] new_chain[j]).key == pre_chain[j
                            + 1].key);
                }
                assert(chain_in_bucket(new_chain, bi, self.buckets@.len() as int)) by {
                    assert(forall|j: int|
                        0 <= j < i ==> (#[trigger] new_chain[j]).key == pre_chain[j].key);
                    assert(forall|j: int|
                        i <= j < new_chain.len() ==> (#[trigger] new_chain[j]).key == pre_chain[j
                            + 1].key);
                }
                lemma_total_entries_bound(pre_buckets, bi);
            }
        }
        if r.is_some() {
            self.len = self.len - 1;
        }
        self.lock.unlock_group();
        proof {
            let bi = b as int;
            assert(pre@.contains_key(key) == (r is Some));
            assert(self@ =~= pre@.remove(key)) by {
                assert forall|k: u64| #[trigger] self@.contains_key(k) || pre@.remove(key).contains_key(k) implies
                    self@.contains_key(k) && pre@.remove(key).contains_key(k) && self@[k]
                        == pre@.remove(key)[k] by {
                    if k != key {
                        if self.bucket_of(k) != bi {
                            assert(self.buckets@[self.bucket_of(k)] == pre.buckets@[self.bucket_of(
                                k,
                            )]);
                        }
                    }
                }
            }
        }
        r
    }
}

/// A scoped read guard for one value of the map: it stands for one group
/// unit of its bucket's value-level lock, and releasing it returns that
/// unit.
pub struct WatchGuardRef {
    bucket: usize,
    key: u64,
}

impl WatchGuardRef {
    /// The bucket whose value-level lock the guard holds.
    pub closed spec fn bucket(&self) -> int {
        self.bucket as int
    }

    /// The key the guard grants access to.
    pub closed spec fn key(&self) -> u64 {
        self.key
    }

    /// The guard names a present key of its own bucket.
    pub open spec fn valid<V>(&self, m: &AtomicHashMap<V>) -> bool {
        &&& 0 <= self.bucket() < m.bucket_count()
        &&& m@.contains_key(self.key())
        &&& m.bucket_of(self.key()) == self.bucket()
    }

    /// Wraps a bucket index and key in a guard.  The guard is only usable
    /// while the bucket's value-level lock is in fact held.
    pub fn new(bucket: usize, key: u64) -> (g: WatchGuardRef)
        ensures
            g.bucket() == bucket,
            g.key() == key,
    {
        WatchGuardRef { bucket, key }
    }

    /// Reads the guarded value.
    pub fn read<'a, V>(&self, m: &'a AtomicHashMap<V>) -> (v: &'a V)
        requires
            m.wf(),
            self.valid(m),
        ensures
            *v == m@[self.key()],
    {
        let items = &m.buckets[self.bucket].head;
        let found = scan_chain(items, self.key);
        match found {
            Some(i) => {
                proof {
                    lemma_chain_find_at(items@, i as int);
                }
                &items[i].value
            },
            None => {
                proof {
                    lemma_chain_find_none(items@, self.key);
                }
                vstd::pervasive::unreached()
            },
        }
    }

    /// Returns `true` while the bucket's value-level lock is held in either
    /// mode.
    pub fn is_locked<V>(&self, m: &AtomicHashMap<V>) -> (r: bool)
        requires
            m.wf(),
            0 <= self.bucket() < m.bucket_count(),
        ensures
            r == (m.bucket_lock(self.bucket()).state == LOCKED_GROUP || (m.bucket_lock(
                self.bucket(),
            ).state == DIRTY && m.bucket_lock(self.bucket()).locked > 0) || !exclusive_acquirable(
                m.bucket_lock(self.bucket()),
            )),
    {
        m.buckets[self.bucket].ref_locked.is_locked()
    }

    /// Releases the guard's group unit of the bucket's value-level lock.
    pub fn release<V>(self, m: &mut AtomicHashMap<V>)
        requires
            old(m).wf(),
            0 <= self.bucket() < old(m).bucket_count(),
            old(m).bucket_lock(self.bucket()).state == LOCKED_GROUP || old(m).bucket_lock(
                self.bucket(),
            ).state == DIRTY,
            old(m).bucket_lock(self.bucket()).locked >= 1,
            old(m).bucket_lock(self.bucket()).inside_g >= 1,
        ensures
            final(m).wf(),
            final(m)@ == old(m)@,
            final(m).spec_len() == old(m).spec_len(),
            final(m).bucket_count() == old(m).bucket_count(),
            final(m).map_lock() == old(m).map_lock(),
            final(m).bucket_lock(self.bucket()) == group_released(
                old(m).bucket_lock(self.bucket()),
            ),
            forall|b: int|
                0 <= b < old(m).bucket_count() && b != self.bucket() ==> final(m).bucket_lock(b)
                    == old(m).bucket_lock(b),
    {
        let ghost pre = *m;
        let ghost pre_buckets = m.buckets@;
        let bucket = &mut m.buckets[self.bucket];
        bucket.ref_locked.unlock_group();
        proof {
            let bi = self.bucket as int;
            assert(m.buckets@ =~= pre_buckets.update(bi, m.buckets@[bi]));
            lemma_total_entries_update(pre_buckets, bi, m.buckets@[bi]);
            assert(m@ =~= pre@);
        }
    }
}

/// A scoped write guard for one value of the map: it stands for exclusive
/// ownership of its bucket's value-level lock, and releasing it unlocks the
/// bucket exactly once.
pub struct WatchGuardMut {
    bucket: usize,
    key: u64,
}

impl WatchGuardMut {
    /// The bucket whose value-level lock the guard holds.
    pub closed spec fn bucket(&self) -> int {
        self.bucket as int
    }

    /// The key the guard grants access to.
    pub closed spec fn key(&self) -> u64 {
        self.key
    }

    /// The guard names a present key of its own bucket.
    pub open spec fn valid<V>(&self, m: &AtomicHashMap<V>) -> bool {
        &&& 0 <= self.bucket() < m.bucket_count()
        &&& m@.contains_key(self.key())
        &&& m.bucket_of(self.key()) == self.bucket()
    }

    /// Wraps a bucket index and key in a guard.  The guard is only usable
    /// while the bucket's value-level lock is in fact held exclusively.
    pub fn new(bucket: usize, key: u64) -> (g: WatchGuardMut)
        ensures
            g.bucket() == bucket,
            g.key() == key,
    {
        WatchGuardMut { bucket, key }
    }

    /// Reads the guarded value.
    pub fn read<'a, V>(&self, m: &'a AtomicHashMap<V>) -> (v: &'a V)
        requires
            m.wf(),
            self.valid(m),
        ensures
            *v == m@[self.key()],
    {
        let items = &m.buckets[self.bucket].head;
        let found = scan_chain(items, self.key);
        match found {
            Some(i) => {
                proof {
                    lemma_chain_find_at(items@, i as int);
                }
                &items[i].value
            },
            None => {
                proof {
                    lemma_chain_find_none(items@, self.key);
                }
                vstd::pervasive::unreached()
            },
        }
    }

    /// Replaces the guarded value.
    pub fn write<V>(&self, m: &mut AtomicHashMap<V>, value: V)
        requires
            old(m).wf(),
            self.valid(old(m)),
        ensures
            final(m).wf(),
            final(m)@ == old(m)@.insert(self.key(), value),
            final(m).spec_len() == old(m).spec_len(),
            final(m).bucket_count() == old(m).bucket_count(),
            final(m).map_lock() == old(m).map_lock(),
            forall|b: int|
                0 <= b < old(m).bucket_count() ==> final(m).bucket_lock(b) == old(m).bucket_lock(
                    b,
                ),
            self.valid(final(m)),
    {
        let ghost pre = *m;
        let ghost pre_buckets = m.buckets@;
        let ghost n = m.buckets@.len() as int;
        let bucket = &mut m.buckets[self.bucket];
        let found = scan_chain(&bucket.head, self.key);
        match found {
            Some(i) => {
                let it = &mut bucket.head[i];
                it.value = value;
            },
            None => {
                proof {
                    lemma_chain_find_none(pre_buckets[self.bucket as int].head@, self.key);
                }
            },
        }
        proof {
            let bi = self.bucket as int;
            let pre_chain = pre_buckets[bi].head@;
            let new_chain = m.buckets@[bi].head@;
            let i = found->0 as int;
            assert(m.buckets@ =~= pre_buckets.update(bi, m.buckets@[bi]));
            lemma_total_entries_update(pre_buckets, bi, m.buckets@[bi]);
            lemma_chain_find_at(pre_chain, i);
            assert forall|k: u64| true implies chain_find(new_chain, k) == (if k == self.key {
                Some(value)
            } else {
                chain_find(pre_chain, k)
            }) by {
                lemma_chain_find_update(pre_chain, i, (Item { key: self.key, value }), k);
            }
            assert(chain_unique(new_chain)) by {
                assert(forall|j: int|
                    0 <= j < new_chain.len() ==> (#[trigger] new_chain[j]).key == pre_chain[j].key);
            }
            assert(chain_in_bucket(new_chain, bi, n)) by {
                assert(forall|j: int|
                    0 <= j < new_chain.len() ==> (#[trigger] new_chain[j]).key == pre_chain[j].key);
            }
            assert(m@ =~= pre@.insert(self.key, value)) by {
                assert forall|k: u64| #[trigger] m@.contains_key(k) || pre@.insert(self.key, value).contains_key(k) implies
                    m@.contains_key(k) && pre@.insert(self.key, value).contains_key(k) && m@[k]
                        == pre@.insert(self.key, value)[k] by {
                    if k != self.key {
                        if m.bucket_of(k) != bi {
                            assert(m.buckets@[m.bucket_of(k)] == pre.buckets@[m.bucket_of(k)]);
                        }
                    }
                }
            }
        }
    }

    /// Returns `true` while the bucket's value-level lock is held
    /// exclusively.
    pub fn is_locked<V>(&self, m: &AtomicHashMap<V>) -> (r: bool)
        requires
            m.wf(),
            0 <= self.bucket() < m.bucket_count(),
        ensures
            r == !exclusive_acquirable(m.bucket_lock(self.bucket())),
    {
        m.buckets[self.bucket].ref_locked.is_locked_exclusive()
    }

    /// Releases the guard: unlocks the bucket's value-level lock exactly
    /// once.
    pub fn release<V>(self, m: &mut AtomicHashMap<V>)
        requires
            old(m).wf(),
            0 <= self.bucket() < old(m).bucket_count(),
            old(m).bucket_lock(self.bucket()).state == LOCKED,
        ensures
            final(m).wf(),
            final(m)@ == old(m)@,
            final(m).spec_len() == old(m).spec_len(),
            final(m).bucket_count() == old(m).bucket_count(),
            final(m).map_lock() == old(m).map_lock(),
            final(m).bucket_lock(self.bucket()) == exclusive_released(
                old(m).bucket_lock(self.bucket()),
            ),
            forall|b: int|
                0 <= b < old(m).bucket_count() && b != self.bucket() ==> final(m).bucket_lock(b)
                    == old(m).bucket_lock(b),
    {
        let ghost pre = *m;
        let ghost pre_buckets = m.buckets@;
        let bucket = &mut m.buckets[self.bucket];
        bucket.ref_locked.unlock_exclusive();
        proof {
            let bi = self.bucket as int;
            assert(m.buckets@ =~= pre_buckets.update(bi, m.buckets@[bi]));
            lemma_total_entries_update(pre_buckets, bi, m.buckets@[bi]);
            assert(m@ =~= pre@);
        }
    }
}


/// The pairs held by the buckets from `b` on, bucket by bucket, each chain
/// head first.
spec fn entries_from<V>(bs: Seq<Bucket<V>>, b: int) -> Seq<(u64, V)>
    decreases bs.len() - b,
{
    if b < 0 || b >= bs.len() {
        Seq::empty()
    } else {
        chain_pairs(bs[b].head@) + entries_from(bs, b + 1)
    }
}

/// Dropping the last bucket drops the last chunk of the enumeration.
proof fn lemma_entries_from_drop_last<V>(bs: Seq<Bucket<V>>, b: int)
    requires
        0 <= b < bs.len(),
    ensures
        entries_from(bs, b) == entries_from(bs.drop_last(), b) + chain_pairs(bs.last().head@),
    decreases bs.len() - b,
{
    if b == bs.len() - 1 {
        assert(entries_from(bs, b + 1) =~= Seq::<(u64, V)>::empty());
        assert(entries_from(bs.drop_last(), b) =~= Seq::<(u64, V)>::empty());
        assert(bs[b] == bs.last());
        assert(entries_from(bs, b) =~= chain_pairs(bs.last().head@));
        assert(entries_from(bs.drop_last(), b) + chain_pairs(bs.last().head@) =~= chain_pairs(
            bs.last().head@,
        ));
    } else {
        lemma_entries_from_drop_last(bs, b + 1);
        assert(bs.drop_last()[b] == bs[b]);
        assert(entries_from(bs, b) =~= entries_from(bs.drop_last(), b) + chain_pairs(
            bs.last().head@,
        ));
    }
}

/// The enumeration holds exactly as many pairs as the buckets hold entries.
proof fn lemma_entries_count<V>(bs: Seq<Bucket<V>>)
    ensures
        entries_from(bs, 0).len() == total_entries(bs),
    decreases bs.len(),
{
    if bs.len() == 0 {
    } else {
        lemma_entries_from_drop_last(bs, 0);
        lemma_entries_count(bs.drop_last());
    }
}

/// No key occurs twice in a sequence of pairs.
pub open spec fn pairs_unique<V>(s: Seq<(u64, V)>) -> bool {
    forall|i: int, j: int| 0 <= i < j < s.len() ==> (#[trigger] s[i]).0 != (#[trigger] s[j]).0
}

/// The enumeration from bucket `b` on holds each key once, settled in its
/// own bucket — which is `b` or a later one — at the value the chain search
/// finds.
proof fn lemma_entries_from_props<V>(bs: Seq<Bucket<V>>, b: int)
    requires
        0 <= b <= bs.len(),
        forall|b2: int| 0 <= b2 < bs.len() ==> chain_unique((#[trigger] bs[b2]).head@),
        forall|b2: int|
            0 <= b2 < bs.len() ==> chain_in_bucket((#[trigger] bs[b2]).head@, b2, bs.len() as int),
    ensures
        pairs_unique(entries_from(bs, b)),
        forall|i: int|
            0 <= i < entries_from(bs, b).len() ==> {
                let k = (#[trigger] entries_from(bs, b)[i]).0;
                &&& b <= spec_bucket_of(k, bs.len() as int) < bs.len()
                &&& chain_find(bs[spec_bucket_of(k, bs.len() as int)].head@, k) == Some(
                    entries_from(bs, b)[i].1,
                )
            },
    decreases bs.len() - b,
{
    if b < bs.len() {
        lemma_entries_from_props(bs, b + 1);
        let chain = bs[b].head@;
        let first = chain_pairs(chain);
        let rest = entries_from(bs, b + 1);
        let all = entries_from(bs, b);
        assert(all == first + rest);
        assert forall|i: int| 0 <= i < all.len() implies {
            let k = (#[trigger] all[i]).0;
            &&& b <= spec_bucket_of(k, bs.len() as int) < bs.len()
            &&& chain_find(bs[spec_bucket_of(k, bs.len() as int)].head@, k) == Some(all[i].1)
        } by {
            if i < first.len() {
                assert(all[i] == first[i]);
                assert(first[i] == (chain[i].key, chain[i].value));
                assert(spec_bucket_of(chain[i].key, bs.len() as int) == b);
                assert forall|j: int| 0 <= j < i implies (#[trigger] chain[j]).key
                    != chain[i].key by {}
                lemma_chain_find_at(chain, i);
            } else {
                assert(all[i] == rest[i - first.len()]);
            }
        }
        assert forall|i: int, j: int| 0 <= i < j < all.len() implies (#[trigger] all[i]).0
            != (#[trigger] all[j]).0 by {
            if j < first.len() {
                assert(all[i] == first[i] && all[j] == first[j]);
                assert(chain[i].key != chain[j].key);
            } else if i >= first.len() {
                assert(all[i] == rest[i - first.len()] && all[j] == rest[j - first.len()]);
            } else {
                // a key of this bucket's chain and one settled in a later
                // bucket cannot collide
                assert(all[i] == first[i]);
                assert(spec_bucket_of(all[i].0, bs.len() as int) == b);
                assert(all[j] == rest[j - first.len()]);
                assert(spec_bucket_of(all[j].0, bs.len() as int) >= b + 1);
            }
        }
    }
}

/// What a full-table iteration yields agrees with the map: each pair is a
/// present key with its stored value, no key is yielded twice, and the
/// number of pairs is exactly the map's length.
pub proof fn lemma_entries_cover_map<V>(m: &AtomicHashMap<V>)
    requires
        m.wf(),
    ensures
        pairs_unique(m.entries()),
        forall|i: int|
            0 <= i < m.entries().len() ==> m@.contains_key((#[trigger] m.entries()[i]).0)
                && m@[m.entries()[i].0] == m.entries()[i].1,
        m.entries().len() == m.spec_len(),
{
    lemma_entries_from_props(m.buckets@, 0);
    lemma_entries_count(m.buckets@);
}

/// A found key sits somewhere in the chain, with the found value.
proof fn lemma_chain_find_mem<V>(s: Seq<Item<V>>, key: u64)
    requires
        chain_find(s, key) is Some,
    ensures
        exists|i: int|
            0 <= i < s.len() && (#[trigger] s[i]).key == key && s[i].value == chain_find(
                s,
                key,
            )->0,
    decreases s.len(),
{
    if s[0].key == key {
        assert(s[0].key == key && s[0].value == chain_find(s, key)->0);
    } else {
        lemma_chain_find_mem(s.skip(1), key);
        let i = choose|i: int|
            0 <= i < s.skip(1).len() && (#[trigger] s.skip(1)[i]).key == key && s.skip(1)[i].value
                == chain_find(s.skip(1), key)->0;
        assert(s[i + 1] == s.skip(1)[i]);
    }
}

/// Every chain entry of a bucket at or past `b` appears in the enumeration
/// from `b` on.
proof fn lemma_entries_from_contains<V>(bs: Seq<Bucket<V>>, b: int, b2: int, i: int)
    requires
        0 <= b <= b2 < bs.len(),
        0 <= i < bs[b2].head@.len(),
    ensures
        entries_from(bs, b).contains((bs[b2].head@[i].key, bs[b2].head@[i].value)),
    decreases b2 - b,
{
    let first = chain_pairs(bs[b].head@);
    let rest = entries_from(bs, b + 1);
    let p = (bs[b2].head@[i].key, bs[b2].head@[i].value);
    if b == b2 {
        assert(first[i] == p);
        assert(entries_from(bs, b)[i] == p);
    } else {
        lemma_entries_from_contains(bs, b + 1, b2, i);
        let j = choose|j: int| 0 <= j < rest.len() && rest[j] == p;
        assert(entries_from(bs, b)[first.len() + j] == p);
    }
}

/// Every present key of the map is yielded by a full-table iteration, with
/// its stored value.
pub proof fn lemma_map_covered_by_entries<V>(m: &AtomicHashMap<V>, key: u64)
    requires
        m.wf(),
        m@.contains_key(key),
    ensures
        m.entries().contains((key, m@[key])),
{
    let n = m.buckets@.len() as int;
    let b = spec_bucket_of(key, n);
    let chain = m.buckets@[b].head@;
    assert(chain_find(chain, key) is Some);
    lemma_chain_find_mem(chain, key);
    let i = choose|i: int|
        0 <= i < chain.len() && (#[trigger] chain[i]).key == key && chain[i].value == chain_find(
            chain,
            key,
        )->0;
    lemma_entries_from_contains(m.buckets@, 0, b, i);
}

/// A full-table iterator.  It is handed out by [`AtomicHashMap::iter`] with
/// the map-wide lock held exclusively, which blocks every single-key
/// mutator until [`Iter::finish`] releases it.
pub struct Iter {
    bucket_idx: usize,
    item_idx: usize,
}

impl Iter {
    /// The bucket the iterator stands in.
    pub closed spec fn bucket(&self) -> int {
        self.bucket_idx as int
    }

    /// The chain position the iterator stands at.
    pub closed spec fn item(&self) -> int {
        self.item_idx as int
    }
}

impl<V> AtomicHashMap<V> {
    /// The map's entries in iteration order: bucket by bucket, each chain
    /// head first.
    pub closed spec fn entries(&self) -> Seq<(u64, V)> {
        entries_from(self.buckets@, 0)
    }

    /// The entries an iterator has not yet yielded.
    pub closed spec fn remaining(&self, it: Iter) -> Seq<(u64, V)> {
        if it.bucket() >= self.bucket_count() {
            Seq::empty()
        } else {
            chain_pairs(self.buckets@[it.bucket()].head@).skip(it.item()) + entries_from(
                self.buckets@,
                it.bucket() + 1,
            )
        }
    }

    /// The iterator either finished all buckets or stands at a real item.
    pub closed spec fn iter_ok(&self, it: Iter) -> bool {
        &&& it.bucket() <= self.bucket_count()
        &&& it.item() >= 0
        &&& it.bucket() < self.bucket_count() ==> it.item()
            < self.buckets@[it.bucket()].head@.len()
    }

    /// Moves the iterator past empty buckets, to the next real item or the
    /// end of the table, keeping the remaining entries as they are.
    fn advance_bucket(&self, it: &mut Iter)
        requires
            old(it).item() == 0,
            0 <= old(it).bucket() <= self.bucket_count(),
        ensures
            self.iter_ok(*final(it)),
            self.remaining(*final(it)) == self.remaining(*old(it)),
            final(it).item() == 0,
    {
        while self.bucket_idx_empty(it)
            invariant
                it.item_idx == 0,
                0 <= it.bucket() <= self.bucket_count(),
                self.remaining(*it) == self.remaining(*old(it)),
            decreases self.bucket_count() - it.bucket(),
        {
            let ghost prev = *it;
            proof {
                vstd::std_specs::vec::axiom_spec_len(&self.buckets);
            }
            it.bucket_idx = it.bucket_idx + 1;
            proof {
                assert(chain_pairs(self.buckets@[prev.bucket()].head@).skip(0) =~= Seq::<(
                    u64,
                    V,
                )>::empty());
                assert(self.remaining(*it) =~= self.remaining(prev));
            }
        }
    }

    /// The iterator stands at a bucket whose chain is empty.
    fn bucket_idx_empty(&self, it: &Iter) -> (r: bool)
        requires
            0 <= it.bucket() <= self.bucket_count(),
        ensures
            r == (it.bucket() < self.bucket_count() && self.buckets@[it.bucket()].head@.len()
                == 0),
    {
        it.bucket_idx < self.buckets.len() && self.buckets[it.bucket_idx].head.len() == 0
    }

    /// Starts a full-table iteration: takes the map-wide lock exclusively,
    /// blocking every single-key operation until the iterator is finished,
    /// and returns an iterator over all entries.
    pub fn iter(&mut self) -> (it: Iter)
        requires
            old(self).wf(),
            exclusive_acquirable(old(self).map_lock()),
        ensures
            final(self).wf(),
            final(self)@ == old(self)@,
            final(self).spec_len() == old(self).spec_len(),
            final(self).bucket_count() == old(self).bucket_count(),
            final(self).entries() == old(self).entries(),
            final(self).map_lock() == exclusive_taken(old(self).map_lock()),
            forall|b: int|
                0 <= b < old(self).bucket_count() ==> final(self).bucket_lock(b) == old(
                    self,
                ).bucket_lock(b),
            final(self).iter_ok(it),
            final(self).remaining(it) == final(self).entries(),
            final(self).entries().len() == final(self).spec_len(),
    {
        proof {
            lemma_entries_count(self.buckets@);
        }
        self.lock.lock_exclusive();
        let mut it = Iter { bucket_idx: 0, item_idx: 0 };
        proof {
            assert(self.remaining(it) =~= self.entries());
        }
        self.advance_bucket(&mut it);
        it
    }

    /// Finishes a full-table iteration: releases the map-wide lock.
    pub fn finish(&mut self, _it: Iter)
        requires
            old(self).wf(),
            old(self).map_lock().state == LOCKED,
        ensures
            final(self).wf(),
            final(self)@ == old(self)@,
            final(self).spec_len() == old(self).spec_len(),
            final(self).bucket_count() == old(self).bucket_count(),
            final(self).map_lock() == exclusive_released(old(self).map_lock()),
            forall|b: int|
                0 <= b < old(self).bucket_count() ==> final(self).bucket_lock(b) == old(
                    self,
                ).bucket_lock(b),
    {
        self.lock.unlock_exclusive();
    }

    /// Yields the next entry, or `None` once every bucket is exhausted.  A
    /// bucket whose value-level lock is exclusively held would make the
    /// iterator wait; under the map-wide exclusive lock none is.
    pub fn next<'a>(&'a self, it: &mut Iter) -> (r: Option<(u64, &'a V)>)
        requires
            self.wf(),
            self.iter_ok(*old(it)),
            old(it).bucket() < self.bucket_count() ==> exclusive_acquirable(
                self.bucket_lock(old(it).bucket()),
            ),
        ensures
            self.iter_ok(*final(it)),
            self.remaining(*old(it)).len() == 0 ==> r is None && self.remaining(*final(it)).len()
                == 0,
            self.remaining(*old(it)).len() > 0 ==> (r matches Some(p) && p.0 == self.remaining(
                *old(it),
            )[0].0 && *p.1 == self.remaining(*old(it))[0].1 && self.remaining(*final(it))
                == self.remaining(*old(it)).skip(1)),
    {
        if it.bucket_idx >= self.buckets.len() {
            proof {
                assert(self.remaining(*it).len() == 0);
            }
            return None;
        }
        let ghost pre = *it;
        let bucket = &self.buckets[it.bucket_idx];
        // a writer of this bucket would make the iterator back off; under
        // the map-wide exclusive lock there is none
        let mut backoff = crate::backoff::Backoff::new();
        while bucket.ref_locked.is_locked_exclusive()
            invariant
                exclusive_acquirable(self.bucket_lock(pre.bucket())),
                bucket == &self.buckets[pre.bucket()],
            decreases 0int,
        {
            backoff.snooze();
        }
        let item = &bucket.head[it.item_idx];
        let ghost chain = self.buckets@[pre.bucket()].head@;
        proof {
            assert(self.remaining(pre)[0] == chain_pairs(chain).skip(pre.item())[0]);
            assert(chain_pairs(chain).skip(pre.item())[0] == chain_pairs(chain)[pre.item()]);
        }
        proof {
            vstd::std_specs::vec::axiom_spec_len(&bucket.head);
        }
        it.item_idx = it.item_idx + 1;
        if it.item_idx >= bucket.head.len() {
            it.bucket_idx = it.bucket_idx + 1;
            it.item_idx = 0;
            proof {
                assert(chain_pairs(chain).skip(pre.item()).len() == 1);
                assert(self.remaining(*it) =~= self.remaining(pre).skip(1));
            }
            let ghost mid = *it;
            self.advance_bucket(it);
            proof {
                assert(self.remaining(*it) == self.remaining(mid));
            }
        } else {
            proof {
                assert(chain_pairs(chain).skip(pre.item()).skip(1) =~= chain_pairs(chain).skip(
                    pre.item() + 1,
                ));
                assert(self.remaining(*it) =~= self.remaining(pre).skip(1));
            }
        }
        Some((item.key, &item.value))
    }
}

} // verus!
