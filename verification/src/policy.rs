//! The S3-FIFO policy as a state machine on the mathematical content of the
//! three queues, with the lemmas that show that its steps keep the invariant.

use crate::fifo_cache::inc_freq_spec;
use crate::fifo_cache::CacheView;
use crate::fifo_cache::ObjectView;
use vstd::prelude::*;

verus! {

/// Sum of the counters of the keys in `order`: the number of laps that the
/// entries behind these keys can still survive.
pub open spec fn freq_sum<K, V>(order: Seq<K>, entries: Map<K, ObjectView<V>>) -> nat
    decreases order.len(),
{
    if order.len() == 0 {
        0
    } else {
        freq_sum(order.drop_last(), entries) + entries[order.last()].freq
    }
}

/// A key queued last adds its counter to the sum.
proof fn lemma_freq_sum_push<K, V>(order: Seq<K>, entries: Map<K, ObjectView<V>>, key: K)
    ensures
        freq_sum(order.push(key), entries) == freq_sum(order, entries) + entries[key].freq,
{
    assert(order.push(key).drop_last() =~= order);
}

/// The sum is the counter of the first key plus the sum over the others.
proof fn lemma_freq_sum_first<K, V>(order: Seq<K>, entries: Map<K, ObjectView<V>>)
    requires
        order.len() > 0,
    ensures
        freq_sum(order, entries) == entries[order[0]].freq + freq_sum(order.drop_first(), entries),
    decreases order.len(),
{
    if order.len() == 1 {
        assert(order.drop_last() =~= order.drop_first());
    } else {
        lemma_freq_sum_first(order.drop_last(), entries);
        assert(order.drop_first().drop_last() =~= order.drop_last().drop_first());
    }
}

/// The sum looks only at the entries of the keys in `order`.
proof fn lemma_freq_sum_agree<K, V>(
    order: Seq<K>,
    left: Map<K, ObjectView<V>>,
    right: Map<K, ObjectView<V>>,
)
    requires
        forall|i: int| 0 <= i < order.len() ==> left[order[i]].freq == right[order[i]].freq,
    ensures
        freq_sum(order, left) == freq_sum(order, right),
    decreases order.len(),
{
    if order.len() > 0 {
        lemma_freq_sum_agree(order.drop_last(), left, right);
    }
}

/// The main queue after its oldest entry took one more lap: the entry goes to
/// the back of the queue with its counter lowered by one.
pub open spec fn lap<K, V>(queue: CacheView<K, V>) -> CacheView<K, V> {
    let key = queue.order[0];
    let entry = queue.entries[key];
    queue.evict().insert_with_meta(key, entry.value, entry.decayed().freq)
}

/// A lap of a consistent queue keeps it consistent, keeps its keys and its
/// length, and uses up one unit of the counters.
pub proof fn lemma_lap<K, V>(queue: CacheView<K, V>)
    requires
        queue.wf(),
        queue.consistent(),
        queue.len() > 0,
    ensures
        lap(queue).wf(),
        lap(queue).consistent(),
        lap(queue).len() == queue.len(),
        lap(queue).entries.dom() == queue.entries.dom(),
        lap(queue).capacity == queue.capacity,
        queue.entries[queue.order[0]].freq > 0 ==> freq_sum(lap(queue).order, lap(queue).entries)
            + 1 == freq_sum(queue.order, queue.entries),
{
    let key = queue.order[0];
    let entry = queue.entries[key];
    let rest = queue.evict();
    queue.lemma_evict_consistent();
    rest.lemma_insert_consistent(key, entry.value, entry.decayed().freq);
    let after = lap(queue);
    if entry.freq > 0 {
        lemma_freq_sum_first(queue.order, queue.entries);
        lemma_freq_sum_push(rest.order, after.entries, key);
        lemma_freq_sum_agree(rest.order, after.entries, queue.entries);
    }
}

/// Dropping the oldest entry of a consistent queue takes its counter out of the sum.
pub proof fn lemma_freq_sum_evict<K, V>(queue: CacheView<K, V>)
    requires
        queue.consistent(),
        queue.len() > 0,
    ensures
        freq_sum(queue.evict().order, queue.evict().entries) + queue.entries[queue.order[0]].freq
            == freq_sum(queue.order, queue.entries),
{
    let rest = queue.evict();
    lemma_freq_sum_first(queue.order, queue.entries);
    lemma_freq_sum_agree(rest.order, rest.entries, queue.entries);
}

/// The main queue after one eviction: the oldest entry takes laps for as long as
/// its counter is above zero, and the first entry found with a counter of zero
/// is dropped.
pub open spec fn evict_main<K, V>(queue: CacheView<K, V>) -> CacheView<K, V>
    decreases freq_sum(queue.order, queue.entries),
    when queue.wf() && queue.consistent()
    via evict_main_decreases::<K, V>
{
    if queue.len() == 0 {
        queue
    } else if queue.entries[queue.order[0]].freq > 0 {
        evict_main(lap(queue))
    } else {
        queue.evict()
    }
}

#[via_fn]
proof fn evict_main_decreases<K, V>(queue: CacheView<K, V>) {
    if queue.len() > 0 {
        lemma_lap(queue);
    }
}

/// An eviction from a consistent main queue that holds a key drops exactly one
/// key, brings in none, and leaves the queue consistent.
pub proof fn lemma_evict_main<K, V>(queue: CacheView<K, V>)
    requires
        queue.wf(),
        queue.consistent(),
    ensures
        evict_main(queue).wf(),
        evict_main(queue).consistent(),
        evict_main(queue).capacity == queue.capacity,
        evict_main(queue).entries.dom().subset_of(queue.entries.dom()),
        queue.len() > 0 ==> evict_main(queue).len() == queue.len() - 1,
        queue.len() == 0 ==> evict_main(queue) == queue,
    decreases freq_sum(queue.order, queue.entries),
{
    if queue.len() > 0 {
        if queue.entries[queue.order[0]].freq > 0 {
            lemma_lap(queue);
            lemma_evict_main(lap(queue));
        } else {
            queue.lemma_evict_consistent();
        }
    }
}

/// The mathematical content of an `S3FIFO` cache: the small queue of recent
/// arrivals, the main queue of entries that were used again, and the ghost queue
/// of keys that the small queue gave up.
#[verifier::reject_recursive_types(K)]
pub struct S3View<K, V> {
    pub small_queue: CacheView<K, V>,
    pub main_queue: CacheView<K, V>,
    pub ghost_queue: CacheView<K, ()>,
}

impl<K, V> S3View<K, V> {
    pub open spec fn empty(small_capacity: nat, main_capacity: nat) -> Self {
        S3View {
            small_queue: CacheView::empty(small_capacity),
            main_queue: CacheView::empty(main_capacity),
            ghost_queue: CacheView::empty(main_capacity),
        }
    }

    /// Number of live entries: those of the small and of the main queue.
    pub open spec fn size(self) -> nat {
        self.small_queue.len() + self.main_queue.len()
    }

    /// Number of live entries that the cache can hold.
    pub open spec fn capacity(self) -> nat {
        self.small_queue.capacity + self.main_queue.capacity
    }

    pub open spec fn is_full(self) -> bool {
        self.size() == self.capacity()
    }

    /// Whether `key` is live, in the small or in the main queue.
    pub open spec fn contains(self, key: K) -> bool {
        self.small_queue.contains(key) || self.main_queue.contains(key)
    }

    /// The value that a lookup of `key` finds: the small queue is asked first.
    pub open spec fn lookup(self, key: K) -> Option<V> {
        if self.small_queue.contains(key) {
            Some(self.small_queue.entries[key].value)
        } else if self.main_queue.contains(key) {
            Some(self.main_queue.entries[key].value)
        } else {
            None
        }
    }

    /// The counter of a live key.
    pub open spec fn freq(self, key: K) -> nat {
        if self.small_queue.contains(key) {
            self.small_queue.entries[key].freq
        } else {
            self.main_queue.entries[key].freq
        }
    }

    /// The invariant of the cache: each queue is consistent and within its
    /// capacity, the ghost queue is as large as the main queue, no key is live in
    /// both the small and the main queue, and no key of the small queue is
    /// remembered in the ghost queue.
    pub open spec fn wf(self) -> bool {
        &&& self.small_queue.wf()
        &&& self.main_queue.wf()
        &&& self.ghost_queue.wf()
        &&& self.small_queue.consistent()
        &&& self.main_queue.consistent()
        &&& self.ghost_queue.consistent()
        &&& self.ghost_queue.capacity == self.main_queue.capacity
        &&& forall|key: K| #[trigger]
            self.small_queue.contains(key) ==> !self.main_queue.contains(key)
        &&& forall|key: K| #[trigger]
            self.small_queue.contains(key) ==> !self.ghost_queue.contains(key)
    }

    /// The main queue with room for one more entry.
    pub open spec fn main_with_room(self) -> CacheView<K, V> {
        if self.main_queue.is_full() {
            evict_main(self.main_queue)
        } else {
            self.main_queue
        }
    }

    /// The ghost queue with room for one more key.
    pub open spec fn ghost_with_room(self) -> CacheView<K, ()> {
        if self.ghost_queue.is_full() {
            self.ghost_queue.evict()
        } else {
            self.ghost_queue
        }
    }

    /// Admission to the main queue, with a fresh counter. A full main queue
    /// evicts first.
    pub open spec fn admit_main(self, key: K, value: V) -> Self {
        S3View { main_queue: self.main_with_room().insert(key, value), ..self }
    }

    /// Admission of a key to the ghost queue. A full ghost queue forgets its
    /// oldest key first.
    pub open spec fn admit_ghost(self, key: K) -> Self {
        S3View { ghost_queue: self.ghost_with_room().insert(key, ()), ..self }
    }

    /// The cache without the oldest entry of the small queue.
    pub open spec fn pop_small(self) -> Self {
        S3View { small_queue: self.small_queue.evict(), ..self }
    }

    /// One eviction from the small queue. Its oldest entries leave one by one:
    /// an entry that was hit more than once moves on to the main queue, and the
    /// first entry that was not is dropped, its key remembered in the ghost queue.
    pub open spec fn evict_small(self) -> Self
        decreases self.small_queue.len(),
    {
        if self.small_queue.len() == 0 {
            self
        } else {
            let key = self.small_queue.order[0];
            let entry = self.small_queue.entries[key];
            if entry.freq > 1 {
                self.pop_small().admit_main(key, entry.value).evict_small()
            } else {
                self.pop_small().admit_ghost(key)
            }
        }
    }

    /// One eviction from the main queue.
    pub open spec fn evict_main(self) -> Self {
        S3View { main_queue: evict_main(self.main_queue), ..self }
    }

    /// One round of eviction: from the small queue if it is full, then from the
    /// main queue if it is full.
    pub open spec fn evict(self) -> Self {
        let after_small = if self.small_queue.is_full() {
            self.evict_small()
        } else {
            self
        };
        if after_small.main_queue.is_full() {
            after_small.evict_main()
        } else {
            after_small
        }
    }

    /// The cache with room for one more live entry.
    pub open spec fn with_room(self) -> Self {
        if self.is_full() {
            self.evict()
        } else {
            self
        }
    }

    /// Admission of a key that is not live. A key that the ghost queue remembers
    /// goes to the main queue, any other to the small queue. The queue that takes
    /// the key evicts first if it is full.
    pub open spec fn insert(self, key: K, value: V) -> Self {
        let roomy = self.with_room();
        if roomy.ghost_queue.contains(key) {
            roomy.admit_main(key, value)
        } else {
            let ready = if roomy.small_queue.is_full() {
                roomy.evict_small()
            } else {
                roomy
            };
            S3View { small_queue: ready.small_queue.insert(key, value), ..ready }
        }
    }

    /// The cache after `put`: a live key gets the new value where it is, with its
    /// counter untouched, and any other key is admitted.
    pub open spec fn put(self, key: K, value: V) -> Self {
        if self.small_queue.contains(key) {
            S3View { small_queue: self.small_queue.update(key, value), ..self }
        } else if self.main_queue.contains(key) {
            S3View { main_queue: self.main_queue.update(key, value), ..self }
        } else {
            self.insert(key, value)
        }
    }

    /// The cache after `get`: a hit counts on the counter of the entry found.
    pub open spec fn get(self, key: K) -> Self {
        if self.small_queue.contains(key) {
            S3View { small_queue: self.small_queue.touch(key), ..self }
        } else {
            S3View { main_queue: self.main_queue.touch(key), ..self }
        }
    }

    /// Taking the oldest entry out of the small queue keeps the invariant.
    pub proof fn lemma_pop_small(self)
        requires
            self.wf(),
            self.small_queue.len() > 0,
        ensures
            self.pop_small().wf(),
            !self.pop_small().contains(self.small_queue.order[0]),
            !self.pop_small().ghost_queue.contains(self.small_queue.order[0]),
            self.pop_small().small_queue.len() == self.small_queue.len() - 1,
            self.pop_small().small_queue.entries.dom().subset_of(self.small_queue.entries.dom()),
            self.small_queue.contains(self.small_queue.order[0]),
    {
        self.small_queue.lemma_evict_consistent();
        self.small_queue.lemma_consistent_len();
    }

    /// Admission to the main queue of a key that is not live keeps the invariant.
    pub proof fn lemma_admit_main(self, key: K, value: V)
        requires
            self.wf(),
            !self.contains(key),
        ensures
            self.admit_main(key, value).wf(),
            self.admit_main(key, value).main_queue.contains(key),
            self.admit_main(key, value).main_queue.entries[key] == (ObjectView { value, freq: 0 }),
            self.admit_main(key, value).main_queue.entries.dom().subset_of(
                self.main_queue.entries.dom().insert(key),
            ),
            self.admit_main(key, value).main_queue.len() <= self.main_queue.len() + 1,
    {
        lemma_evict_main(self.main_queue);
        self.main_with_room().lemma_insert_consistent(key, value, 0);
    }

    /// Admission to the ghost queue of a key that is neither remembered there
    /// nor in the small queue keeps the invariant.
    pub proof fn lemma_admit_ghost(self, key: K)
        requires
            self.wf(),
            !self.small_queue.contains(key),
            !self.ghost_queue.contains(key),
        ensures
            self.admit_ghost(key).wf(),
            self.admit_ghost(key).ghost_queue.contains(key),
            self.admit_ghost(key).ghost_queue.entries.dom().subset_of(
                self.ghost_queue.entries.dom().insert(key),
            ),
    {
        self.ghost_queue.lemma_evict_consistent();
        self.ghost_with_room().lemma_insert_consistent(key, (), 0);
    }

    /// An eviction from the small queue keeps the invariant. It frees a slot of
    /// the small queue, and every key stays where it was, moves from the small
    /// queue to the main or to the ghost queue, or leaves.
    pub proof fn lemma_evict_small(self)
        requires
            self.wf(),
        ensures
            self.evict_small().wf(),
            self.evict_small().small_queue.capacity == self.small_queue.capacity,
            self.evict_small().main_queue.capacity == self.main_queue.capacity,
            self.small_queue.len() > 0 ==> self.evict_small().small_queue.len()
                < self.small_queue.len(),
            self.small_queue.len() == 0 ==> self.evict_small() == self,
            self.evict_small().small_queue.entries.dom().subset_of(self.small_queue.entries.dom()),
            self.evict_small().main_queue.entries.dom().subset_of(
                self.main_queue.entries.dom().union(self.small_queue.entries.dom()),
            ),
            self.evict_small().ghost_queue.entries.dom().subset_of(
                self.ghost_queue.entries.dom().union(self.small_queue.entries.dom()),
            ),
        decreases self.small_queue.len(),
    {
        if self.small_queue.len() > 0 {
            let key = self.small_queue.order[0];
            let entry = self.small_queue.entries[key];
            self.lemma_pop_small();
            let popped = self.pop_small();
            if entry.freq > 1 {
                popped.lemma_admit_main(key, entry.value);
                popped.admit_main(key, entry.value).lemma_evict_small();
            } else {
                popped.lemma_admit_ghost(key);
            }
        }
    }

    /// An eviction from the main queue keeps the invariant and frees a slot of a
    /// main queue that holds a key.
    pub proof fn lemma_evict_main(self)
        requires
            self.wf(),
        ensures
            self.evict_main().wf(),
            self.evict_main().main_queue.entries.dom().subset_of(self.main_queue.entries.dom()),
            self.main_queue.len() > 0 ==> self.evict_main().main_queue.len()
                == self.main_queue.len() - 1,
    {
        lemma_evict_main(self.main_queue);
    }

    /// A round of eviction keeps the invariant and leaves a full cache with room.
    pub proof fn lemma_evict(self)
        requires
            self.wf(),
        ensures
            self.evict().wf(),
            self.evict().small_queue.capacity == self.small_queue.capacity,
            self.evict().main_queue.capacity == self.main_queue.capacity,
            self.is_full() ==> !self.evict().is_full(),
            self.evict().small_queue.entries.dom().subset_of(self.small_queue.entries.dom()),
            self.evict().main_queue.entries.dom().subset_of(
                self.main_queue.entries.dom().union(self.small_queue.entries.dom()),
            ),
            self.evict().ghost_queue.entries.dom().subset_of(
                self.ghost_queue.entries.dom().union(self.small_queue.entries.dom()),
            ),
    {
        self.lemma_evict_small();
        let after_small = if self.small_queue.is_full() {
            self.evict_small()
        } else {
            self
        };
        after_small.lemma_evict_main();
    }

    /// Admission of a key that is not live keeps the invariant, and a lookup of
    /// the key then finds the admitted value.
    pub proof fn lemma_insert(self, key: K, value: V)
        requires
            self.wf(),
            !self.contains(key),
        ensures
            self.insert(key, value).wf(),
            self.insert(key, value).lookup(key) == Some(value),
            self.insert(key, value).freq(key) == 0,
            self.insert(key, value).size() <= self.insert(key, value).capacity(),
            self.insert(key, value).small_queue.capacity == self.small_queue.capacity,
            self.insert(key, value).main_queue.capacity == self.main_queue.capacity,
    {
        self.lemma_evict();
        let roomy = self.with_room();
        if roomy.ghost_queue.contains(key) {
            roomy.lemma_admit_main(key, value);
        } else {
            roomy.lemma_evict_small();
            let ready = if roomy.small_queue.is_full() {
                roomy.evict_small()
            } else {
                roomy
            };
            ready.small_queue.lemma_insert_consistent(key, value, 0);
            let after = self.insert(key, value);
            assert forall|k: K| #[trigger] after.small_queue.contains(k) implies
                !after.main_queue.contains(k) && !after.ghost_queue.contains(k) by {
                if k != key {
                    assert(ready.small_queue.contains(k));
                }
            }
        }
    }

    /// A lookup keeps the invariant, the queues and the values, and a hit raises
    /// the counter of the entry found by one, up to `FREQ_MAX`.
    pub proof fn lemma_get(self, key: K)
        requires
            self.wf(),
        ensures
            self.get(key).wf(),
            self.get(key).small_queue.capacity == self.small_queue.capacity,
            self.get(key).main_queue.capacity == self.main_queue.capacity,
            self.get(key).small_queue.order == self.small_queue.order,
            self.get(key).main_queue.order == self.main_queue.order,
            self.get(key).ghost_queue == self.ghost_queue,
            forall|other: K| self.get(key).contains(other) == self.contains(other),
            forall|other: K| self.get(key).lookup(other) == self.lookup(other),
            self.contains(key) ==> self.get(key).freq(key) == inc_freq_spec(self.freq(key)),
    {
        let after = self.get(key);
        if self.small_queue.contains(key) {
            self.small_queue.lemma_with_entry_consistent(
                key,
                self.small_queue.entries[key].bumped(),
            );
        } else if self.main_queue.contains(key) {
            self.main_queue.lemma_with_entry_consistent(
                key,
                self.main_queue.entries[key].bumped(),
            );
        }
        assert forall|k: K| #[trigger] after.small_queue.contains(k) implies
            !after.main_queue.contains(k) && !after.ghost_queue.contains(k) by {
            assert(self.small_queue.contains(k));
        }
    }

    /// `put` keeps the invariant, and a lookup of the key then finds the value.
    pub proof fn lemma_put(self, key: K, value: V)
        requires
            self.wf(),
        ensures
            self.put(key, value).wf(),
            self.put(key, value).lookup(key) == Some(value),
            self.put(key, value).small_queue.capacity == self.small_queue.capacity,
            self.put(key, value).main_queue.capacity == self.main_queue.capacity,
            self.contains(key) ==> self.put(key, value).small_queue.order == self.small_queue.order
                && self.put(key, value).main_queue.order == self.main_queue.order
                && self.put(key, value).ghost_queue == self.ghost_queue
                && self.put(key, value).freq(key) == self.freq(key),
    {
        let after = self.put(key, value);
        if self.small_queue.contains(key) {
            self.small_queue.lemma_with_entry_consistent(
                key,
                self.small_queue.entries[key].with_value(value),
            );
            assert forall|k: K| #[trigger] after.small_queue.contains(k) implies
                !after.main_queue.contains(k) && !after.ghost_queue.contains(k) by {
                assert(self.small_queue.contains(k));
            }
        } else if self.main_queue.contains(key) {
            self.main_queue.lemma_with_entry_consistent(
                key,
                self.main_queue.entries[key].with_value(value),
            );
        } else {
            self.lemma_insert(key, value);
        }
    }
}

} // verus!
