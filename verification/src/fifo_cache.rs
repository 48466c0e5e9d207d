//! A bounded FIFO cache: a ring of keys for the order of eviction beside a hash
//! table of entries, each entry with a saturating frequency counter.

use crate::ring_buffer::push_back_spec;
use crate::ring_buffer::RingBuffer;
use std::collections::hash_map::Entry;
use std::collections::HashMap;
use std::hash::Hash;
use vstd::prelude::*;
use vstd::std_specs::hash::obeys_key_model;

verus! {

/// Largest value of an entry's frequency counter.
pub const FREQ_MAX: usize = 3;

/// What a key type must provide for the cache to track it: hashing and equality
/// that agree with equality of values, and a `clone` that yields an equal key.
pub open spec fn key_model<K: Clone>() -> bool {
    &&& obeys_key_model::<K>()
    &&& forall|a: K, b: K| #[trigger] cloned::<K>(a, b) ==> a == b
}

/// The saturating frequency counter of an entry. Its view is the counter's value.
#[derive(Clone, Copy)]
pub struct CacheMetadata {
    freq: usize,
}

impl View for CacheMetadata {
    type V = nat;

    closed spec fn view(&self) -> nat {
        self.freq as nat
    }
}

impl Default for CacheMetadata {
    fn default() -> (r: Self)
        ensures
            r@ == 0,
    {
        CacheMetadata { freq: 0 }
    }
}

/// The counter after one more hit.
pub open spec fn inc_freq_spec(freq: nat) -> nat {
    if freq < FREQ_MAX {
        freq + 1
    } else {
        FREQ_MAX as nat
    }
}

/// The counter after surviving one lap.
pub open spec fn desc_freq_spec(freq: nat) -> nat {
    if freq > 0 {
        (freq - 1) as nat
    } else {
        0
    }
}

impl CacheMetadata {
    #[verifier::type_invariant]
    spec fn in_range(self) -> bool {
        self.freq <= FREQ_MAX
    }

    /// Counts one hit, saturating at `FREQ_MAX`.
    pub fn inc_freq(&mut self)
        ensures
            final(self)@ == inc_freq_spec(old(self)@),
    {
        proof {
            use_type_invariant(&*self);
        }
        if self.freq < FREQ_MAX {
            self.freq = self.freq + 1;
        }
    }

    /// Takes one hit back, saturating at zero.
    pub fn desc_freq(&mut self)
        ensures
            final(self)@ == desc_freq_spec(old(self)@),
    {
        proof {
            use_type_invariant(&*self);
        }
        if self.freq != 0 {
            self.freq = self.freq - 1;
        }
    }

    /// The counter's value, which never exceeds `FREQ_MAX`.
    pub fn get_freq(&self) -> (r: usize)
        ensures
            r == self@,
            r <= FREQ_MAX,
    {
        proof {
            use_type_invariant(self);
        }
        self.freq
    }
}

/// The mathematical content of a cache entry: its value and its counter.
pub struct ObjectView<V> {
    pub value: V,
    pub freq: nat,
}

impl<V> ObjectView<V> {
    /// The entry after one more hit.
    pub open spec fn bumped(self) -> Self {
        ObjectView { value: self.value, freq: inc_freq_spec(self.freq) }
    }

    /// The entry after surviving one lap.
    pub open spec fn decayed(self) -> Self {
        ObjectView { value: self.value, freq: desc_freq_spec(self.freq) }
    }

    /// The entry with its value replaced and its counter untouched.
    pub open spec fn with_value(self, value: V) -> Self {
        ObjectView { value, freq: self.freq }
    }
}

/// A cached value together with its frequency counter.
pub struct CacheObject<V> {
    value: V,
    meta: CacheMetadata,
}

impl<V> View for CacheObject<V> {
    type V = ObjectView<V>;

    closed spec fn view(&self) -> ObjectView<V> {
        ObjectView { value: self.value, freq: self.meta@ }
    }
}

impl<V> CacheObject<V> {
    /// Counts one hit on the entry.
    fn inc_freq(&mut self)
        ensures
            final(self)@ == old(self)@.bumped(),
    {
        self.meta.inc_freq();
    }

    /// Replaces the value and leaves the counter alone.
    pub fn set_value(&mut self, value: V)
        ensures
            final(self)@ == old(self)@.with_value(value),
    {
        self.value = value;
    }

    /// The value.
    pub fn get_value(&self) -> (r: &V)
        ensures
            *r == self@.value,
    {
        &self.value
    }

    /// A copy of the value.
    pub fn get_value_copy(&self) -> (r: V) where V: Clone
        ensures
            cloned(self@.value, r),
    {
        self.value.clone()
    }

    /// Gives up the entry for its value.
    pub fn into_value(self) -> (r: V)
        ensures
            r == self@.value,
    {
        self.value
    }

    /// The counter's value, which never exceeds `FREQ_MAX`.
    pub fn get_freq(&self) -> (r: usize)
        ensures
            r == self@.freq,
            r <= FREQ_MAX,
    {
        self.meta.get_freq()
    }

    /// The counter.
    pub fn get_meta(&self) -> (r: &CacheMetadata)
        ensures
            r@ == self@.freq,
    {
        &self.meta
    }

    /// A copy of the counter.
    pub fn get_meta_copy(&self) -> (r: CacheMetadata)
        ensures
            r@ == self@.freq,
    {
        self.meta
    }
}

impl<V: Clone> Clone for CacheObject<V> {
    fn clone(&self) -> (r: Self)
        ensures
            cloned(self@.value, r@.value),
            r@.freq == self@.freq,
    {
        CacheObject { value: self.value.clone(), meta: self.meta }
    }
}

impl<V: Default> Default for CacheObject<V> {
    fn default() -> (r: Self)
        ensures
            call_ensures(V::default, (), r@.value),
            r@.freq == 0,
    {
        CacheObject { value: V::default(), meta: CacheMetadata::default() }
    }
}

impl<V> std::ops::Deref for CacheObject<V> {
    type Target = V;

    fn deref(&self) -> (r: &V)
        ensures
            *r == self@.value,
    {
        self.get_value()
    }
}

/// The mathematical content of a `FIFOCache`: the keys in the order in which they
/// will leave, oldest first, and the entry stored for each key.
#[verifier::reject_recursive_types(K)]
pub struct CacheView<K, V> {
    pub order: Seq<K>,
    pub entries: Map<K, ObjectView<V>>,
    pub capacity: nat,
}

impl<K, V> CacheView<K, V> {
    /// The cache with `capacity` slots that holds nothing.
    pub open spec fn empty(capacity: nat) -> Self {
        CacheView { order: Seq::empty(), entries: Map::empty(), capacity }
    }

    /// The number of queued keys.
    pub open spec fn len(self) -> nat {
        self.order.len()
    }

    /// Whether as many keys are queued as there are slots.
    pub open spec fn is_full(self) -> bool {
        self.order.len() == self.capacity
    }

    /// Whether an entry is stored for `key`.
    pub open spec fn contains(self, key: K) -> bool {
        self.entries.contains_key(key)
    }

    /// The queue has at least one slot and holds no more keys than it has slots.
    pub open spec fn wf(self) -> bool {
        &&& self.capacity >= 1
        &&& self.order.len() <= self.capacity
    }

    /// The queue of keys and the stored entries agree: no key is queued twice, and a
    /// key is queued exactly when an entry is stored for it.
    pub open spec fn consistent(self) -> bool {
        &&& self.order.no_duplicates()
        &&& self.order.to_set() == self.entries.dom()
    }

    /// Queues `key` behind all others and stores an entry for it. A full queue
    /// loses its oldest key on the way, while the entry of that key stays stored.
    pub open spec fn insert_with_meta(self, key: K, value: V, freq: nat) -> Self {
        CacheView {
            order: push_back_spec(self.order, self.capacity, key),
            entries: self.entries.insert(key, ObjectView { value, freq }),
            capacity: self.capacity,
        }
    }

    /// The same with a fresh counter.
    pub open spec fn insert(self, key: K, value: V) -> Self {
        self.insert_with_meta(key, value, 0)
    }

    /// The cache without its oldest key and without that key's entry.
    pub open spec fn evict(self) -> Self {
        if self.order.len() == 0 {
            self
        } else {
            CacheView {
                order: self.order.drop_first(),
                entries: self.entries.remove(self.order[0]),
                capacity: self.capacity,
            }
        }
    }

    /// The oldest key and its entry, where there is one.
    pub open spec fn oldest(self) -> Option<(K, ObjectView<V>)> {
        if self.order.len() > 0 && self.entries.contains_key(self.order[0]) {
            Some((self.order[0], self.entries[self.order[0]]))
        } else {
            None
        }
    }

    /// The cache with `entry` stored for `key`, and the queue as it was.
    pub open spec fn with_entry(self, key: K, entry: ObjectView<V>) -> Self {
        CacheView {
            order: self.order,
            entries: self.entries.insert(key, entry),
            capacity: self.capacity,
        }
    }

    /// The cache after a lookup of `key`: a hit counts on the entry's counter.
    pub open spec fn touch(self, key: K) -> Self {
        if self.contains(key) {
            self.with_entry(key, self.entries[key].bumped())
        } else {
            self
        }
    }

    /// The cache with the value of `key` replaced, where `key` is stored.
    pub open spec fn update(self, key: K, value: V) -> Self {
        if self.contains(key) {
            self.with_entry(key, self.entries[key].with_value(value))
        } else {
            self
        }
    }

    /// The empty cache is consistent.
    pub proof fn lemma_empty_consistent(capacity: nat)
        ensures
            Self::empty(capacity).consistent(),
            capacity >= 1 ==> Self::empty(capacity).wf(),
    {
        assert(Self::empty(capacity).order.to_set() =~= Self::empty(capacity).entries.dom());
    }

    /// Replacing the entry of a stored key changes neither the queue nor the set
    /// of stored keys.
    pub proof fn lemma_with_entry_consistent(self, key: K, entry: ObjectView<V>)
        requires
            self.consistent(),
            self.contains(key),
        ensures
            self.with_entry(key, entry).consistent(),
            self.with_entry(key, entry).entries.dom() == self.entries.dom(),
    {
    }

    /// In a consistent cache as many keys are queued as entries are stored.
    pub proof fn lemma_consistent_len(self)
        requires
            self.consistent(),
        ensures
            self.entries.dom().finite(),
            self.order.len() == self.entries.len(),
            forall|key: K| self.order.contains(key) <==> self.contains(key),
    {
        self.order.unique_seq_to_set();
    }

    /// Inserting a key that is not stored into a consistent cache with room left
    /// keeps the cache consistent.
    pub proof fn lemma_insert_consistent(self, key: K, value: V, freq: nat)
        requires
            self.consistent(),
            !self.is_full(),
            !self.contains(key),
        ensures
            self.insert_with_meta(key, value, freq).consistent(),
            self.insert_with_meta(key, value, freq).len() == self.len() + 1,
            self.wf() ==> self.insert_with_meta(key, value, freq).wf(),
    {
        let after = self.insert_with_meta(key, value, freq);
        assert(after.order.to_set() =~= after.entries.dom()) by {
            assert forall|k: K| after.order.to_set().contains(k) <==> after.entries.dom().contains(
                k,
            ) by {
                if k != key {
                    if self.order.contains(k) {
                        let i = choose|i: int| 0 <= i < self.order.len() && self.order[i] == k;
                        assert(after.order[i] == k);
                    }
                    if after.order.contains(k) {
                        let i = choose|i: int| 0 <= i < after.order.len() && after.order[i] == k;
                    }
                } else {
                    assert(after.order[self.order.len() as int] == key);
                }
            }
        }
    }

    /// Evicting from a consistent cache keeps it consistent, and hands out the
    /// oldest key whenever the cache holds one.
    pub proof fn lemma_evict_consistent(self)
        requires
            self.consistent(),
        ensures
            self.evict().consistent(),
            self.wf() ==> self.evict().wf(),
            self.len() > 0 ==> self.oldest() is Some && self.evict().len() == self.len() - 1
                && !self.evict().contains(self.order[0]),
            self.len() == 0 ==> self.oldest() is None,
    {
        let after = self.evict();
        if self.order.len() > 0 {
            let first = self.order[0];
            assert(after.order.to_set() =~= after.entries.dom()) by {
                assert forall|k: K| after.order.to_set().contains(k)
                    <==> after.entries.dom().contains(k) by {
                    if after.order.contains(k) {
                        let i = choose|i: int| 0 <= i < after.order.len() && after.order[i] == k;
                    }
                    if self.order.contains(k) && k != first {
                        let i = choose|i: int| 0 <= i < self.order.len() && self.order[i] == k;
                        assert(after.order[i - 1] == k);
                    }
                }
            }
        }
    }
}

/// The content of each entry of a table.
spec fn entries_of<K, V>(table: Map<K, CacheObject<V>>) -> Map<K, ObjectView<V>> {
    table.map_values(|obj: CacheObject<V>| obj@)
}

proof fn lemma_entries_insert<K, V>(table: Map<K, CacheObject<V>>, key: K)
    ensures
        forall|obj: CacheObject<V>| #[trigger]
            entries_of(table.insert(key, obj)) == entries_of(table).insert(key, obj@),
{
}

/// Finds the entry of `key` in `table` and counts one hit on it.
fn hit<'a, K: Clone + Eq + Hash, V>(table: &'a mut HashMap<K, CacheObject<V>>, key: &K) -> (r:
    Option<&'a mut CacheObject<V>>)
    requires
        key_model::<K>(),
    ensures
        match r {
            Some(obj) => old(table)@.contains_key(*key) && obj@ == old(table)@[*key]@.bumped()
                && final(table)@ == old(table)@.insert(*key, *final(obj)),
            None => !old(table)@.contains_key(*key) && final(table)@ == old(table)@,
        },
{
    let copy = key.clone();
    proof {
        assert(cloned::<K>(*key, copy));
    }
    match table.entry(copy) {
        Entry::Occupied(slot) => {
            let obj = slot.into_mut();
            obj.inc_freq();
            Some(obj)
        },
        Entry::Vacant(_) => None,
    }
}

/// A bounded map that remembers the order in which its keys arrived.
///
/// A ring of keys gives the order of eviction, a hash table gives each key's
/// entry. Every lookup through `find` counts as a hit on the entry's counter.
pub struct FIFOCache<K, V> {
    rb: RingBuffer<K>,
    hashtable: HashMap<K, CacheObject<V>>,
}

impl<K, V> View for FIFOCache<K, V> {
    type V = CacheView<K, V>;

    closed spec fn view(&self) -> CacheView<K, V> {
        CacheView {
            order: self.rb@,
            entries: entries_of(self.hashtable@),
            capacity: self.rb.spec_capacity(),
        }
    }
}

impl<K, V> FIFOCache<K, V> {
    /// The representation invariant of the ring of keys.
    pub closed spec fn inv(&self) -> bool {
        self.rb.wf()
    }

    /// A sound ring has at least one slot and holds no more keys than it has slots.
    pub proof fn lemma_inv_bounds(&self)
        requires
            self.inv(),
        ensures
            self@.wf(),
    {
        self.rb.lemma_len_bounded();
    }

    /// The number of queued keys.
    pub fn len(&self) -> (r: usize)
        requires
            self.inv(),
        ensures
            r == self@.len(),
    {
        self.rb.len()
    }

    /// Whether no key is queued.
    pub fn empty(&self) -> (r: bool)
        requires
            self.inv(),
        ensures
            r == (self@.len() == 0),
    {
        self.len() == 0
    }

    /// Whether the ring of keys has no slot left.
    pub fn is_full(&self) -> (r: bool)
        requires
            self.inv(),
        ensures
            r == self@.is_full(),
    {
        self.rb.is_full()
    }

    /// The number of slots of the ring of keys.
    pub fn capacity(&self) -> (r: usize)
        requires
            self.inv(),
        ensures
            r == self@.capacity,
            r >= 1,
    {
        self.rb.capacity()
    }
}

impl<K: Clone + Eq + Hash, V> FIFOCache<K, V> {
    /// What every operation expects and keeps: a sound ring of at least one slot
    /// that holds no more keys than it has slots, over a key type that obeys the
    /// key model.
    pub open spec fn wf(&self) -> bool {
        &&& self.inv()
        &&& key_model::<K>()
        &&& self@.wf()
    }

    /// An empty cache whose ring has `capacity` slots.
    #[must_use]
    pub fn new(capacity: usize) -> (r: Self)
        requires
            capacity >= 1,
            key_model::<K>(),
        ensures
            r.wf(),
            r@ == CacheView::<K, V>::empty(capacity as nat),
    {
        let r = FIFOCache { rb: RingBuffer::new(capacity), hashtable: HashMap::new() };
        proof {
            assert(r@.entries =~= Map::<K, ObjectView<V>>::empty());
        }
        r
    }

    /// Replaces the value stored for `key` and leaves its counter alone.
    /// Does nothing when `key` is not stored.
    pub fn update(&mut self, key: K, value: V)
        requires
            old(self).wf(),
        ensures
            final(self).wf(),
            final(self)@ == old(self)@.update(key, value),
            old(self)@.consistent() ==> final(self)@.consistent(),
    {
        proof {
            if self@.consistent() && self@.contains(key) {
                self@.lemma_with_entry_consistent(key, self@.entries[key].with_value(value));
            }
        }
        match self.hashtable.entry(key) {
            Entry::Occupied(mut slot) => {
                slot.get_mut().set_value(value);
            },
            Entry::Vacant(_) => {},
        }
        proof {
            assert(self@.entries =~= old(self)@.update(key, value).entries);
        }
    }

    /// Stores `value` for `key` with a fresh counter and queues `key` last.
    ///
    /// On a full cache the ring drops its oldest key while that key's entry stays
    /// in the table: make room with `evict` first to keep the cache consistent.
    pub fn insert(&mut self, key: K, value: V)
        requires
            old(self).wf(),
        ensures
            final(self).wf(),
            final(self)@ == old(self)@.insert(key, value),
            old(self)@.consistent() && !old(self)@.is_full() && !old(self)@.contains(key)
                ==> final(self)@.consistent(),
    {
        let meta = CacheMetadata::default();
        self.insert_with_meta(key, value, meta);
    }

    /// Like `insert`, with the counter that the caller supplies.
    pub fn insert_with_meta(&mut self, key: K, value: V, meta: CacheMetadata)
        requires
            old(self).wf(),
        ensures
            final(self).wf(),
            final(self)@ == old(self)@.insert_with_meta(key, value, meta@),
            old(self)@.consistent() && !old(self)@.is_full() && !old(self)@.contains(key)
                ==> final(self)@.consistent(),
    {
        let copy = key.clone();
        proof {
            assert(cloned::<K>(key, copy));
            if self@.consistent() && !self@.is_full() && !self@.contains(key) {
                self@.lemma_insert_consistent(key, value, meta@);
            }
        }
        self.hashtable.insert(copy, CacheObject { value, meta });
        self.rb.push_back(key);
        proof {
            assert(self@.entries =~= old(self)@.insert_with_meta(key, value, meta@).entries);
        }
    }

    /// Takes the oldest key out of the ring and its entry out of the table, and
    /// returns both. Returns `None` when no key is queued, or when the table holds
    /// no entry for the oldest key.
    pub fn evict(&mut self) -> (r: Option<(K, CacheObject<V>)>)
        requires
            old(self).wf(),
        ensures
            final(self).wf(),
            final(self)@ == old(self)@.evict(),
            match r {
                Some((key, obj)) => old(self)@.oldest() == Some((key, obj@)),
                None => old(self)@.oldest() is None,
            },
            old(self)@.consistent() ==> final(self)@.consistent(),
    {
        proof {
            if self@.consistent() {
                self@.lemma_evict_consistent();
            }
        }
        let oldest = self.rb.pop_front();
        match oldest {
            Some(key) => {
                let removed = self.hashtable.remove(&key);
                proof {
                    assert(self@.entries =~= old(self)@.evict().entries);
                }
                match removed {
                    Some(obj) => Some((key, obj)),
                    None => None,
                }
            },
            None => None,
        }
    }

    /// Looks `key` up and counts the hit on its entry.
    pub fn find(&mut self, key: &K) -> (r: Option<&CacheObject<V>>)
        requires
            old(self).wf(),
        ensures
            final(self).wf(),
            final(self)@ == old(self)@.touch(*key),
            match r {
                Some(obj) => old(self)@.contains(*key) && obj@ == old(self)@.entries[*key].bumped(),
                None => !old(self)@.contains(*key),
            },
            old(self)@.consistent() ==> final(self)@.consistent(),
    {
        proof {
            lemma_entries_insert(self.hashtable@, *key);
            if self@.consistent() && self@.contains(*key) {
                self@.lemma_with_entry_consistent(*key, self@.entries[*key].bumped());
            }
        }
        match hit(&mut self.hashtable, key) {
            Some(obj) => Some(&*obj),
            None => None,
        }
    }

    /// Looks `key` up, counts the hit on its entry, and lends the entry out for
    /// writing. What the borrower leaves in the entry is what the cache then holds.
    pub fn find_mut(&mut self, key: &K) -> (r: Option<&mut CacheObject<V>>)
        requires
            old(self).wf(),
        ensures
            final(self).wf(),
            match r {
                Some(obj) => old(self)@.contains(*key) && obj@ == old(self)@.entries[*key].bumped()
                    && final(self)@ == old(self)@.with_entry(*key, final(obj)@),
                None => !old(self)@.contains(*key) && final(self)@ == old(self)@,
            },
            old(self)@.consistent() ==> final(self)@.consistent(),
    {
        proof {
            lemma_entries_insert(self.hashtable@, *key);
            let view = self@;
            if view.consistent() && view.contains(*key) {
                assert(forall|entry: ObjectView<V>|
                    view.order.to_set() == (#[trigger] view.entries.insert(*key, entry)).dom());
            }
        }
        hit(&mut self.hashtable, key)
    }

    /// Looks `key` up without counting a hit.
    pub fn peek(&self, key: &K) -> (r: Option<&CacheObject<V>>)
        requires
            self.wf(),
        ensures
            match r {
                Some(obj) => self@.contains(*key) && obj@ == self@.entries[*key],
                None => !self@.contains(*key),
            },
    {
        self.hashtable.get(key)
    }

    /// Whether an entry is stored for `key`.
    pub fn contains(&self, key: &K) -> (r: bool)
        requires
            self.wf(),
        ensures
            r == self@.contains(*key),
    {
        self.hashtable.contains_key(key)
    }

    /// The queued keys, oldest first.
    pub fn keys(&self) -> (r: Vec<K>)
        requires
            self.wf(),
        ensures
            r@ == self@.order,
    {
        self.rb.get_values()
    }

    /// The number of stored entries.
    pub fn entry_count(&self) -> (r: usize)
        requires
            self.wf(),
        ensures
            r == self@.entries.len(),
    {
        proof {
            assert(self@.entries.dom() =~= self.hashtable@.dom());
        }
        self.hashtable.len()
    }
}

} // verus!
