//! The S3-FIFO cache: three FIFO caches driven by the policy.

use crate::fifo_cache::key_model;
use crate::fifo_cache::CacheView;
use crate::fifo_cache::FIFOCache;
use crate::policy::evict_main;
use crate::policy::freq_sum;
use crate::policy::lemma_evict_main;
use crate::policy::lemma_freq_sum_evict;
use crate::policy::lemma_lap;
use crate::policy::S3View;
use std::hash::Hash;
use vstd::prelude::*;

verus! {

/// The number of slots that the small queue gets of `cache_size` slots when its
/// share of them is `numerator / denominator`, rounded down.
pub open spec fn small_share(cache_size: nat, numerator: nat, denominator: nat) -> nat {
    (cache_size * numerator) / denominator
}

/// A share below one leaves the small queue fewer slots than the cache has.
pub proof fn lemma_small_share_below(cache_size: nat, numerator: nat, denominator: nat)
    requires
        0 < numerator < denominator,
        cache_size > 0,
    ensures
        small_share(cache_size, numerator, denominator) < cache_size,
{
    vstd::arithmetic::mul::lemma_mul_strict_inequality(
        numerator as int,
        denominator as int,
        cache_size as int,
    );
    vstd::arithmetic::mul::lemma_mul_is_commutative(cache_size as int, numerator as int);
    vstd::arithmetic::mul::lemma_mul_is_commutative(cache_size as int, denominator as int);
    vstd::arithmetic::div_mod::lemma_div_by_multiple_is_strongly_ordered(
        (cache_size * numerator) as int,
        (cache_size * denominator) as int,
        cache_size as int,
        denominator as int,
    );
    vstd::arithmetic::div_mod::lemma_div_by_multiple(cache_size as int, denominator as int);
}

/// A cache with the S3-FIFO policy: a small queue admits new keys, a main queue
/// keeps the keys that were used again, and a ghost queue remembers the keys
/// that the small queue gave up, so that they are admitted to the main queue
/// when they come back.
pub struct S3FIFO<K, V> {
    cache_size: usize,
    small_cache_capacity: usize,
    main_cache_capacity: usize,
    ghost_cache_capacity: usize,
    s_queue: FIFOCache<K, V>,
    m_queue: FIFOCache<K, V>,
    g_queue: FIFOCache<K, ()>,
    size: usize,
}

impl<K, V> View for S3FIFO<K, V> {
    type V = S3View<K, V>;

    closed spec fn view(&self) -> S3View<K, V> {
        S3View {
            small_queue: self.s_queue@,
            main_queue: self.m_queue@,
            ghost_queue: self.g_queue@,
        }
    }
}

impl<K, V> S3FIFO<K, V> {
    /// The representation invariant: the rings of the three queues are sound,
    /// and the recorded capacities and the recorded size are those of the queues.
    pub closed spec fn inv(&self) -> bool {
        &&& self.s_queue.inv()
        &&& self.m_queue.inv()
        &&& self.g_queue.inv()
        &&& self.small_cache_capacity == self.s_queue@.capacity
        &&& self.main_cache_capacity == self.m_queue@.capacity
        &&& self.ghost_cache_capacity == self.g_queue@.capacity
        &&& self.cache_size == self.small_cache_capacity + self.main_cache_capacity
        &&& self.size == self.s_queue@.len() + self.m_queue@.len()
    }

    /// Whether the cache holds as many live entries as it can.
    pub fn is_full(&self) -> (r: bool)
        requires
            self.inv(),
        ensures
            r == self@.is_full(),
    {
        self.size == self.cache_size
    }

    /// The number of live entries.
    pub fn size(&self) -> (r: usize)
        requires
            self.inv(),
        ensures
            r == self@.size(),
            r <= self@.capacity(),
    {
        proof {
            self.s_queue.lemma_inv_bounds();
            self.m_queue.lemma_inv_bounds();
        }
        self.size
    }

    /// The number of live entries that the cache can hold.
    pub fn cache_size(&self) -> (r: usize)
        requires
            self.inv(),
        ensures
            r == self@.capacity(),
    {
        self.cache_size
    }

    /// The number of keys in the small queue.
    pub fn small_len(&self) -> (r: usize)
        requires
            self.inv(),
        ensures
            r == self@.small_queue.len(),
    {
        self.s_queue.len()
    }

    /// The number of keys in the main queue.
    pub fn main_len(&self) -> (r: usize)
        requires
            self.inv(),
        ensures
            r == self@.main_queue.len(),
    {
        self.m_queue.len()
    }

    /// The number of keys in the ghost queue.
    pub fn ghost_len(&self) -> (r: usize)
        requires
            self.inv(),
        ensures
            r == self@.ghost_queue.len(),
    {
        self.g_queue.len()
    }

    /// The number of slots of the small queue.
    pub fn small_cache_capacity(&self) -> (r: usize)
        requires
            self.inv(),
        ensures
            r == self@.small_queue.capacity,
    {
        self.small_cache_capacity
    }

    /// The number of slots of the main queue.
    pub fn main_cache_capacity(&self) -> (r: usize)
        requires
            self.inv(),
        ensures
            r == self@.main_queue.capacity,
    {
        self.main_cache_capacity
    }

    /// The number of slots of the ghost queue.
    pub fn ghost_cache_capacity(&self) -> (r: usize)
        requires
            self.inv(),
        ensures
            r == self@.ghost_queue.capacity,
    {
        self.ghost_cache_capacity
    }
}

impl<K: Clone + Eq + Hash, V> S3FIFO<K, V> {
    /// What every operation expects and keeps: a sound representation over a
    /// key type that obeys the key model, and the invariant of the policy.
    pub open spec fn wf(&self) -> bool {
        &&& self.inv()
        &&& key_model::<K>()
        &&& self@.wf()
    }

    /// An empty cache for `cache_size` live entries, `small_cache_capacity` of
    /// them in the small queue and the others in the main queue. The ghost queue
    /// is as large as the main queue.
    pub fn new(cache_size: usize, small_cache_capacity: usize) -> (r: Self)
        requires
            key_model::<K>(),
            1 <= small_cache_capacity < cache_size,
        ensures
            r.wf(),
            r@ == S3View::<K, V>::empty(
                small_cache_capacity as nat,
                (cache_size - small_cache_capacity) as nat,
            ),
    {
        let main_cache_capacity = cache_size - small_cache_capacity;
        let ghost_cache_capacity = main_cache_capacity;
        proof {
            CacheView::<K, V>::lemma_empty_consistent(small_cache_capacity as nat);
            CacheView::<K, V>::lemma_empty_consistent(main_cache_capacity as nat);
            CacheView::<K, ()>::lemma_empty_consistent(ghost_cache_capacity as nat);
        }
        S3FIFO {
            cache_size,
            small_cache_capacity,
            main_cache_capacity,
            ghost_cache_capacity,
            s_queue: FIFOCache::new(small_cache_capacity),
            m_queue: FIFOCache::new(main_cache_capacity),
            g_queue: FIFOCache::new(ghost_cache_capacity),
            size: 0,
        }
    }

    /// An empty cache for `cache_size` live entries that gives the share
    /// `numerator / denominator` of them, rounded down, to the small queue and
    /// the others to the main queue. The share lies strictly between zero and
    /// one and leaves the small queue at least one slot.
    pub fn new_with_ratio(cache_size: usize, numerator: usize, denominator: usize) -> (r: Self)
        requires
            key_model::<K>(),
            0 < numerator < denominator,
            small_share(cache_size as nat, numerator as nat, denominator as nat) >= 1,
        ensures
            r.wf(),
            r@ == S3View::<K, V>::empty(
                small_share(cache_size as nat, numerator as nat, denominator as nat),
                (cache_size - small_share(
                    cache_size as nat,
                    numerator as nat,
                    denominator as nat,
                )) as nat,
            ),
    {
        proof {
            assert(cache_size > 0) by {
                if cache_size == 0 {
                    assert(small_share(0, numerator as nat, denominator as nat) == 0) by {
                        vstd::arithmetic::mul::lemma_mul_basics(numerator as int);
                    }
                }
            }
            lemma_small_share_below(cache_size as nat, numerator as nat, denominator as nat);
            vstd::arithmetic::mul::lemma_mul_upper_bound(
                cache_size as int,
                usize::MAX as int,
                numerator as int,
                usize::MAX as int,
            );
            assert(usize::MAX * usize::MAX <= u128::MAX) by (nonlinear_arith);
        }
        let product: u128 = (cache_size as u128) * (numerator as u128);
        let small_cache_capacity: u128 = product / (denominator as u128);
        Self::new(cache_size, small_cache_capacity as usize)
    }

    /// An empty cache for `cache_size` live entries that gives a tenth of them,
    /// rounded down, to the small queue: at least ten entries, so that the small
    /// queue has a slot.
    pub fn new_with_default_ratio(cache_size: usize) -> (r: Self)
        requires
            key_model::<K>(),
            cache_size >= 10,
        ensures
            r.wf(),
            r@ == S3View::<K, V>::empty(
                small_share(cache_size as nat, 1, 10),
                (cache_size - small_share(cache_size as nat, 1, 10)) as nat,
            ),
    {
        Self::new_with_ratio(cache_size, 1, 10)
    }

    /// Looks `key` up in the small queue, then in the main queue. A hit counts on
    /// the entry's counter. The ghost queue is not asked.
    pub fn get(&mut self, key: &K) -> (r: Option<&V>)
        requires
            old(self).wf(),
        ensures
            final(self).wf(),
            final(self)@ == old(self)@.get(*key),
            match r {
                Some(value) => old(self)@.lookup(*key) == Some(*value),
                None => old(self)@.lookup(*key) is None,
            },
    {
        proof {
            self@.lemma_get(*key);
        }
        if let Some(obj) = self.s_queue.find(key) {
            return Some(obj.get_value());
        }
        if let Some(obj) = self.m_queue.find(key) {
            return Some(obj.get_value());
        }
        None
    }

    /// Like `get`, with a copy of the value.
    pub fn get_copy(&mut self, key: &K) -> (r: Option<V>) where V: Clone
        requires
            old(self).wf(),
        ensures
            final(self).wf(),
            final(self)@ == old(self)@.get(*key),
            match r {
                Some(value) => old(self)@.lookup(*key) is Some && cloned(
                    old(self)@.lookup(*key).unwrap(),
                    value,
                ),
                None => old(self)@.lookup(*key) is None,
            },
    {
        if let Some(value) = self.get(key) {
            Some(value.clone())
        } else {
            None
        }
    }

    /// Stores `value` for `key`. A live key keeps its place and its counter and
    /// gets the new value. Any other key is admitted, after evictions where the
    /// cache or the queue that takes the key is full.
    pub fn put(&mut self, key: K, value: V)
        requires
            old(self).wf(),
        ensures
            final(self).wf(),
            final(self)@ == old(self)@.put(key, value),
            final(self)@.lookup(key) == Some(value),
    {
        proof {
            self@.lemma_put(key, value);
        }
        if self.s_queue.contains(&key) {
            self.s_queue.update(key, value);
            return ;
        }
        if self.m_queue.contains(&key) {
            self.m_queue.update(key, value);
            return ;
        }
        self.insert(key, value);
    }

    /// The keys of the small queue, oldest first.
    pub fn small_keys(&self) -> (r: Vec<K>)
        requires
            self.wf(),
        ensures
            r@ == self@.small_queue.order,
    {
        self.s_queue.keys()
    }

    /// The keys of the main queue, oldest first.
    pub fn main_keys(&self) -> (r: Vec<K>)
        requires
            self.wf(),
        ensures
            r@ == self@.main_queue.order,
    {
        self.m_queue.keys()
    }

    /// The keys of the ghost queue, oldest first.
    pub fn ghost_keys(&self) -> (r: Vec<K>)
        requires
            self.wf(),
        ensures
            r@ == self@.ghost_queue.order,
    {
        self.g_queue.keys()
    }

    /// Admits a key that is not live: to the main queue if the ghost queue
    /// remembers it, else to the small queue. Evicts first for as long as the
    /// cache is full, and once more from the queue that takes the key if that
    /// queue is full.
    fn insert(&mut self, key: K, value: V)
        requires
            old(self).wf(),
            !old(self)@.contains(key),
        ensures
            final(self).wf(),
            final(self)@ == old(self)@.insert(key, value),
    {
        let ghost start = self@;
        while self.is_full()
            invariant
                self.wf(),
                self@.with_room() == start.with_room(),
            decreases
                (if self@.is_full() {
                    1nat
                } else {
                    0nat
                }),
        {
            proof {
                self@.lemma_evict();
            }
            self.evict();
        }
        proof {
            start.lemma_insert(key, value);
            self@.lemma_evict_small();
            self@.lemma_evict_main();
        }
        if self.g_queue.contains(&key) {
            if self.m_queue.is_full() {
                self.evict_m();
            }
            self.m_queue.insert(key, value);
        } else {
            if self.s_queue.is_full() {
                self.evict_s();
            }
            self.s_queue.insert(key, value);
        }
        self.size = self.size + 1;
    }

    /// One round of eviction: from the small queue if it is full, then from the
    /// main queue if it is full.
    fn evict(&mut self)
        requires
            old(self).wf(),
        ensures
            final(self).wf(),
            final(self)@ == old(self)@.evict(),
    {
        if self.s_queue.is_full() {
            self.evict_s();
        }
        if self.m_queue.is_full() {
            self.evict_m();
        }
    }

    /// Takes the oldest entries out of the small queue until one of them is
    /// dropped or none is left. An entry that was hit more than once moves on to
    /// the main queue, which evicts first if it is full. The first entry that was
    /// not is dropped, and the ghost queue remembers its key in place of its own
    /// oldest key if it is full.
    fn evict_s(&mut self)
        requires
            old(self).wf(),
        ensures
            final(self).wf(),
            final(self)@ == old(self)@.evict_small(),
    {
        let ghost start = self@;
        let mut evicted = false;
        while !evicted && !self.s_queue.empty()
            invariant
                self.wf(),
                if evicted {
                    self@ == start.evict_small()
                } else {
                    self@.evict_small() == start.evict_small()
                },
            decreases
                self@.small_queue.len() + (if evicted {
                    0nat
                } else {
                    1nat
                }),
        {
            let ghost before = self@;
            proof {
                before.lemma_pop_small();
            }
            if let Some((key, obj)) = self.s_queue.evict() {
                self.size = self.size - 1;
                if obj.get_freq() > 1 {
                    proof {
                        before.pop_small().lemma_evict_main();
                    }
                    if self.m_queue.is_full() {
                        self.evict_m();
                    }
                    self.m_queue.insert(key, obj.into_value());
                    self.size = self.size + 1;
                } else {
                    if self.g_queue.is_full() {
                        self.g_queue.evict();
                    }
                    self.g_queue.insert(key, ());
                    evicted = true;
                }
            }
        }
    }

    /// Takes the oldest entries out of the main queue until one of them is
    /// dropped or none is left. An entry whose counter is above zero goes back
    /// to the end of the queue with its counter lowered by one. The first entry
    /// found with a counter of zero is dropped.
    fn evict_m(&mut self)
        requires
            old(self).wf(),
        ensures
            final(self).wf(),
            final(self)@ == old(self)@.evict_main(),
    {
        let ghost start = self@;
        let mut evicted = false;
        while !evicted && !self.m_queue.empty()
            invariant
                self.wf(),
                start.wf(),
                self@.small_queue == start.small_queue,
                self@.ghost_queue == start.ghost_queue,
                if evicted {
                    self@.main_queue == evict_main(start.main_queue)
                } else {
                    evict_main(self@.main_queue) == evict_main(start.main_queue)
                },
            decreases
                freq_sum(self@.main_queue.order, self@.main_queue.entries) + (if evicted {
                    0nat
                } else {
                    1nat
                }),
        {
            let ghost before = self@.main_queue;
            proof {
                lemma_lap(before);
                lemma_freq_sum_evict(before);
            }
            if let Some((key, obj)) = self.m_queue.evict() {
                if obj.get_freq() > 0 {
                    let mut meta = obj.get_meta_copy();
                    meta.desc_freq();
                    self.m_queue.insert_with_meta(key, obj.into_value(), meta);
                } else {
                    evicted = true;
                    self.size = self.size - 1;
                }
            }
        }
    }
}

} // verus!
