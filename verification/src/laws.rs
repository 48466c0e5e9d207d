//! What holds of the ring, of the FIFO cache and of the policy whatever the
//! workload, proved over their mathematical content.

use crate::fifo_cache::CacheView;
use crate::fifo_cache::ObjectView;
use crate::fifo_cache::FREQ_MAX;
use crate::policy::evict_main;
use crate::policy::freq_sum;
use crate::policy::lap;
use crate::policy::lemma_lap;
use crate::policy::S3View;
use crate::ring_buffer::push_back_spec;
use vstd::prelude::*;

verus! {

/// The ring's content after the elements of `values` were pushed at its back,
/// one after the other.
pub open spec fn push_back_all<T>(content: Seq<T>, capacity: nat, values: Seq<T>) -> Seq<T>
    decreases values.len(),
{
    if values.len() == 0 {
        content
    } else {
        push_back_spec(
            push_back_all(content, capacity, values.drop_last()),
            capacity,
            values.last(),
        )
    }
}

/// An empty ring that takes more elements than it has slots keeps the newest
/// ones, as many as it has slots: each push onto the full ring overwrites the
/// oldest element left.
pub proof fn law_ring_keeps_newest<T>(capacity: nat, values: Seq<T>)
    requires
        capacity >= 1,
    ensures
        push_back_all(Seq::empty(), capacity, values) == if values.len() <= capacity {
            values
        } else {
            values.subrange(values.len() - capacity, values.len() as int)
        },
    decreases values.len(),
{
    if values.len() > 0 {
        law_ring_keeps_newest(capacity, values.drop_last());
    }
}

/// A ring with `capacity` slots that takes `capacity + 1` elements holds
/// `capacity` of them, and the first one pushed is the one it lost.
pub proof fn law_ring_overflow<T>(capacity: nat, values: Seq<T>)
    requires
        capacity >= 1,
        values.len() == capacity + 1,
    ensures
        push_back_all(Seq::empty(), capacity, values).len() == capacity,
        push_back_all(Seq::empty(), capacity, values) == values.drop_first(),
{
    law_ring_keeps_newest(capacity, values);
}

/// One operation on a FIFO cache.
pub enum CacheOp<K, V> {
    /// `insert_with_meta` of a key, a value and a counter.
    Insert(K, V, nat),
    /// `evict`.
    Evict,
    /// `find` of a key.
    Find(K),
    /// `update` of a key with a value.
    Update(K, V),
    /// `find_mut` of a key, after which the borrower leaves the given entry.
    Rewrite(K, ObjectView<V>),
}

impl<K, V> CacheView<K, V> {
    /// The cache after `op`.
    pub open spec fn apply(self, op: CacheOp<K, V>) -> Self {
        match op {
            CacheOp::Insert(key, value, freq) => self.insert_with_meta(key, value, freq),
            CacheOp::Evict => self.evict(),
            CacheOp::Find(key) => self.touch(key),
            CacheOp::Update(key, value) => self.update(key, value),
            CacheOp::Rewrite(key, entry) => if self.contains(key) {
                self.with_entry(key, entry)
            } else {
                self
            },
        }
    }

    /// Whether `op` respects what the cache asks of its callers: no insertion
    /// into a full cache, and none of a key that is stored.
    pub open spec fn admits(self, op: CacheOp<K, V>) -> bool {
        match op {
            CacheOp::Insert(key, _, _) => !self.is_full() && !self.contains(key),
            _ => true,
        }
    }

    /// The cache after the operations of `ops`, in their order.
    pub open spec fn run(self, ops: Seq<CacheOp<K, V>>) -> Self
        decreases ops.len(),
    {
        if ops.len() == 0 {
            self
        } else {
            self.run(ops.drop_last()).apply(ops.last())
        }
    }

    /// Whether each operation of `ops` respects what the cache asks of its
    /// callers at the time when it is made.
    pub open spec fn admits_all(self, ops: Seq<CacheOp<K, V>>) -> bool
        decreases ops.len(),
    {
        ops.len() == 0 || (self.admits_all(ops.drop_last()) && self.run(ops.drop_last()).admits(
            ops.last(),
        ))
    }

    /// The cache after the insertion of the keys and values of `items`, in
    /// their order, each with a fresh counter.
    pub open spec fn fill(self, items: Seq<(K, V)>) -> Self
        decreases items.len(),
    {
        if items.len() == 0 {
            self
        } else {
            self.fill(items.drop_last()).insert(items.last().0, items.last().1)
        }
    }
}

/// Whatever admissible operations are made on a consistent cache, it stays
/// consistent: as many keys are queued as entries are stored, and the queued
/// keys are the keys of the stored entries.
pub proof fn law_cache_stays_consistent<K, V>(cache: CacheView<K, V>, ops: Seq<CacheOp<K, V>>)
    requires
        cache.wf(),
        cache.consistent(),
        cache.admits_all(ops),
    ensures
        cache.run(ops).wf(),
        cache.run(ops).consistent(),
        cache.run(ops).order.len() == cache.run(ops).entries.len(),
        cache.run(ops).order.to_set() == cache.run(ops).entries.dom(),
        cache.run(ops).capacity == cache.capacity,
    decreases ops.len(),
{
    if ops.len() > 0 {
        law_cache_stays_consistent(cache, ops.drop_last());
        let before = cache.run(ops.drop_last());
        match ops.last() {
            CacheOp::Insert(key, value, freq) => {
                before.lemma_insert_consistent(key, value, freq);
            },
            CacheOp::Evict => {
                before.lemma_evict_consistent();
            },
            CacheOp::Find(key) => {
                if before.contains(key) {
                    before.lemma_with_entry_consistent(key, before.entries[key].bumped());
                }
            },
            CacheOp::Update(key, value) => {
                if before.contains(key) {
                    before.lemma_with_entry_consistent(
                        key,
                        before.entries[key].with_value(value),
                    );
                }
            },
            CacheOp::Rewrite(key, entry) => {
                if before.contains(key) {
                    before.lemma_with_entry_consistent(key, entry);
                }
            },
        }
    }
    cache.run(ops).lemma_consistent_len();
}

/// The keys of `items`, in their order.
pub open spec fn keys_of<K, V>(items: Seq<(K, V)>) -> Seq<K> {
    Seq::new(items.len(), |i: int| items[i].0)
}

/// A cache filled from empty with distinct keys, no more than it has slots,
/// queues them in the order of their insertion, so that `evict` hands out the
/// key that was inserted first, with its value and a counter of zero.
pub proof fn law_evict_returns_oldest<K, V>(capacity: nat, items: Seq<(K, V)>)
    requires
        capacity >= 1,
        items.len() <= capacity,
        forall|i: int, j: int| 0 <= i < j < items.len() ==> items[i].0 != items[j].0,
    ensures
        CacheView::empty(capacity).fill(items).consistent(),
        CacheView::empty(capacity).fill(items).capacity == capacity,
        CacheView::empty(capacity).fill(items).order == keys_of(items),
        items.len() > 0 ==> CacheView::empty(capacity).fill(items).oldest() == Some(
            (items[0].0, ObjectView { value: items[0].1, freq: 0 }),
        ),
        items.len() > 0 ==> CacheView::empty(capacity).fill(items).evict().order
            == keys_of(items.drop_first()),
    decreases items.len(),
{
    CacheView::<K, V>::lemma_empty_consistent(capacity);
    if items.len() > 0 {
        let front = items.drop_last();
        let last = items.last();
        law_evict_returns_oldest(capacity, front);
        CacheView::<K, V>::empty(capacity).fill(front).lemma_insert_consistent(last.0, last.1, 0);
    }
}

/// The entry that stands at `index` in the queue.
pub open spec fn entry_at<K, V>(queue: CacheView<K, V>, index: int) -> ObjectView<V> {
    queue.entries[queue.order[index]]
}

/// Whether the entry at `index` is the first of those with the least counter.
pub open spec fn is_first_least<K, V>(queue: CacheView<K, V>, index: int) -> bool {
    &&& 0 <= index < queue.order.len()
    &&& forall|j: int|
        0 <= j < index ==> (#[trigger] entry_at(queue, j)).freq > entry_at(queue, index).freq
    &&& forall|j: int|
        index < j < queue.order.len() ==> (#[trigger] entry_at(queue, j)).freq >= entry_at(
            queue,
            index,
        ).freq
}

/// An eviction from the main queue drops the first of the entries with the
/// least counter. The entries behind it move to the front, each with its counter
/// lowered by that least counter, and the entries before it follow them, each
/// with its counter lowered by one more.
pub proof fn law_evict_main_drops_first_least<K, V>(queue: CacheView<K, V>, index: int)
    requires
        queue.wf(),
        queue.consistent(),
        is_first_least(queue, index),
    ensures
        ({
            let after = evict_main(queue);
            let least = entry_at(queue, index).freq;
            &&& after.order == queue.order.subrange(index + 1, queue.order.len() as int)
                + queue.order.subrange(0, index)
            &&& after.entries.dom() == queue.entries.dom().remove(queue.order[index])
            &&& forall|j: int|
                0 <= j < index ==> after.entries[#[trigger] queue.order[j]] == (ObjectView {
                    value: entry_at(queue, j).value,
                    freq: (entry_at(queue, j).freq - least - 1) as nat,
                })
            &&& forall|j: int|
                index < j < queue.order.len() ==> after.entries[#[trigger] queue.order[j]]
                    == (ObjectView {
                    value: entry_at(queue, j).value,
                    freq: (entry_at(queue, j).freq - least) as nat,
                })
        }),
    decreases freq_sum(queue.order, queue.entries),
{
    let len = queue.order.len() as int;
    let after = evict_main(queue);
    if entry_at(queue, 0).freq > 0 {
        // After one lap the entry to drop stands one place further to the front,
        // or last if it was the one that took the lap.
        let lapped = lap(queue);
        lemma_lap(queue);
        assert forall|j: int| 0 <= j < len - 1 implies lapped.order[j] == queue.order[j + 1]
            && #[trigger] entry_at(lapped, j) == entry_at(queue, j + 1) by {}
        let target = if index == 0 {
            len - 1
        } else {
            index - 1
        };
        law_evict_main_drops_first_least(lapped, target);
        let least = entry_at(queue, index).freq;
        assert forall|j: int| 0 <= j < index implies after.entries[#[trigger] queue.order[j]]
            == (ObjectView {
            value: entry_at(queue, j).value,
            freq: (entry_at(queue, j).freq - least - 1) as nat,
        }) by {
            if j > 0 {
                assert(queue.order[j] == lapped.order[j - 1]);
            }
        }
        assert forall|j: int| index < j < len implies after.entries[#[trigger] queue.order[j]]
            == (ObjectView {
            value: entry_at(queue, j).value,
            freq: (entry_at(queue, j).freq - least) as nat,
        }) by {
            assert(queue.order[j] == lapped.order[j - 1]);
        }
    }
}

/// The place of the first of the entries with the least counter among the
/// first `upto` entries of the queue.
pub open spec fn first_least<K, V>(queue: CacheView<K, V>, upto: int) -> int
    decreases upto,
{
    if upto <= 1 {
        0
    } else {
        let best = first_least(queue, upto - 1);
        if entry_at(queue, upto - 1).freq < entry_at(queue, best).freq {
            upto - 1
        } else {
            best
        }
    }
}

/// A queue that holds a key has a first entry with the least counter.
pub proof fn lemma_first_least<K, V>(queue: CacheView<K, V>, upto: int)
    requires
        1 <= upto <= queue.order.len(),
    ensures
        0 <= first_least(queue, upto) < upto,
        forall|j: int|
            0 <= j < first_least(queue, upto) ==> (#[trigger] entry_at(queue, j)).freq > entry_at(
                queue,
                first_least(queue, upto),
            ).freq,
        forall|j: int|
            first_least(queue, upto) < j < upto ==> (#[trigger] entry_at(queue, j)).freq
                >= entry_at(queue, first_least(queue, upto)).freq,
        upto == queue.order.len() ==> is_first_least(queue, first_least(queue, upto)),
    decreases upto,
{
    if upto > 1 {
        lemma_first_least(queue, upto - 1);
    }
}

/// An eviction from a main queue that holds a key makes room for exactly one
/// key by dropping the first of the entries with the least counter.
pub proof fn law_evict_main_victim<K, V>(queue: CacheView<K, V>)
    requires
        queue.wf(),
        queue.consistent(),
        queue.len() > 0,
    ensures
        ({
            let victim = first_least(queue, queue.order.len() as int);
            &&& 0 <= victim < queue.order.len()
            &&& evict_main(queue).len() == queue.len() - 1
            &&& !evict_main(queue).contains(queue.order[victim])
            &&& forall|j: int|
                0 <= j < queue.order.len() && j != victim ==> evict_main(queue).contains(
                    #[trigger] queue.order[j],
                ) && evict_main(queue).entries[queue.order[j]].value == entry_at(queue, j).value
        }),
{
    let victim = first_least(queue, queue.order.len() as int);
    lemma_first_least(queue, queue.order.len() as int);
    law_evict_main_drops_first_least(queue, victim);
}

/// Whether the entry at `index` is the first that was hit at most once.
pub open spec fn is_first_cold<K, V>(queue: CacheView<K, V>, index: int) -> bool {
    &&& 0 <= index < queue.order.len()
    &&& entry_at(queue, index).freq <= 1
    &&& forall|j: int| 0 <= j < index ==> (#[trigger] entry_at(queue, j)).freq > 1
}

impl<K, V> S3View<K, V> {
    /// The cache after the `count` oldest entries of the small queue moved on to
    /// the main queue, one after the other.
    pub open spec fn promote_oldest(self, count: nat) -> Self
        decreases count,
    {
        if count == 0 {
            self
        } else {
            let key = self.small_queue.order[0];
            self.pop_small().admit_main(key, self.small_queue.entries[key].value).promote_oldest(
                (count - 1) as nat,
            )
        }
    }
}

/// An eviction from the small queue stops at the first entry that was hit at
/// most once: the entries before it move on to the main queue, this one is
/// dropped and its key remembered in the ghost queue, and those behind it stay.
pub proof fn law_evict_small_drops_first_cold<K, V>(cache: S3View<K, V>, index: int)
    requires
        cache.wf(),
        is_first_cold(cache.small_queue, index),
    ensures
        cache.evict_small() == cache.promote_oldest(index as nat).pop_small().admit_ghost(
            cache.small_queue.order[index],
        ),
        cache.evict_small().small_queue.order == cache.small_queue.order.subrange(
            index + 1,
            cache.small_queue.order.len() as int,
        ),
        cache.evict_small().ghost_queue == cache.ghost_with_room().insert(
            cache.small_queue.order[index],
            (),
        ),
    decreases index,
{
    let key = cache.small_queue.order[0];
    let popped = cache.pop_small();
    cache.lemma_pop_small();
    if index > 0 {
        assert(entry_at(cache.small_queue, 0).freq > 1);
        let next = popped.admit_main(key, cache.small_queue.entries[key].value);
        popped.lemma_admit_main(key, cache.small_queue.entries[key].value);
        assert(is_first_cold(next.small_queue, index - 1)) by {
            assert forall|j: int| 0 <= j < index - 1 implies (#[trigger] entry_at(
                next.small_queue,
                j,
            )).freq > 1 by {
                assert(entry_at(next.small_queue, j) == entry_at(cache.small_queue, j + 1));
            }
        }
        law_evict_small_drops_first_cold(next, index - 1);
    }
}

/// An eviction from a small queue whose entries were all hit more than once
/// moves them all on to the main queue and remembers none of them.
pub proof fn law_evict_small_promotes_all<K, V>(cache: S3View<K, V>)
    requires
        cache.wf(),
        forall|j: int|
            0 <= j < cache.small_queue.order.len() ==> (#[trigger] entry_at(
                cache.small_queue,
                j,
            )).freq > 1,
    ensures
        cache.evict_small() == cache.promote_oldest(cache.small_queue.len()),
        cache.evict_small().small_queue.len() == 0,
        cache.evict_small().ghost_queue == cache.ghost_queue,
    decreases cache.small_queue.len(),
{
    if cache.small_queue.len() > 0 {
        let key = cache.small_queue.order[0];
        let popped = cache.pop_small();
        cache.lemma_pop_small();
        assert(entry_at(cache.small_queue, 0).freq > 1);
        let next = popped.admit_main(key, cache.small_queue.entries[key].value);
        popped.lemma_admit_main(key, cache.small_queue.entries[key].value);
        assert forall|j: int| 0 <= j < next.small_queue.order.len() implies (#[trigger] entry_at(
            next.small_queue,
            j,
        )).freq > 1 by {
            assert(entry_at(next.small_queue, j) == entry_at(cache.small_queue, j + 1));
        }
        law_evict_small_promotes_all(next);
    }
}

/// One request to an S3-FIFO cache.
pub enum Request<K, V> {
    Get(K),
    Put(K, V),
}

impl<K, V> S3View<K, V> {
    /// The cache after `request`.
    pub open spec fn serve(self, request: Request<K, V>) -> Self {
        match request {
            Request::Get(key) => self.get(key),
            Request::Put(key, value) => self.put(key, value),
        }
    }

    /// The cache after the requests of `requests`, in their order.
    pub open spec fn serve_all(self, requests: Seq<Request<K, V>>) -> Self
        decreases requests.len(),
    {
        if requests.len() == 0 {
            self
        } else {
            self.serve_all(requests.drop_last()).serve(requests.last())
        }
    }

    /// The cache after `count` lookups of `key`.
    pub open spec fn get_times(self, key: K, count: nat) -> Self
        decreases count,
    {
        if count == 0 {
            self
        } else {
            self.get_times(key, (count - 1) as nat).get(key)
        }
    }

    /// The cache after `put` of `key` with each value of `values`, in their order.
    pub open spec fn put_each(self, key: K, values: Seq<V>) -> Self
        decreases values.len(),
    {
        if values.len() == 0 {
            self
        } else {
            self.put_each(key, values.drop_last()).put(key, values.last())
        }
    }
}

/// The empty cache satisfies the invariant.
pub proof fn law_empty_wf<K, V>(small_capacity: nat, main_capacity: nat)
    requires
        small_capacity >= 1,
        main_capacity >= 1,
    ensures
        S3View::<K, V>::empty(small_capacity, main_capacity).wf(),
        S3View::<K, V>::empty(small_capacity, main_capacity).size() == 0,
{
    CacheView::<K, V>::lemma_empty_consistent(small_capacity);
    CacheView::<K, V>::lemma_empty_consistent(main_capacity);
    CacheView::<K, ()>::lemma_empty_consistent(main_capacity);
}

/// Whatever requests a cache serves, its invariant holds afterwards: no queue
/// holds more keys than it has slots, no key is live in both the small and the
/// main queue, and the live entries are no more than the cache's capacity,
/// which stays what it was.
pub proof fn law_workload_keeps_invariant<K, V>(cache: S3View<K, V>, requests: Seq<Request<K, V>>)
    requires
        cache.wf(),
    ensures
        cache.serve_all(requests).wf(),
        cache.serve_all(requests).small_queue.capacity == cache.small_queue.capacity,
        cache.serve_all(requests).main_queue.capacity == cache.main_queue.capacity,
        cache.serve_all(requests).small_queue.len() <= cache.small_queue.capacity,
        cache.serve_all(requests).main_queue.len() <= cache.main_queue.capacity,
        cache.serve_all(requests).ghost_queue.len() <= cache.main_queue.capacity,
        cache.serve_all(requests).size() <= cache.capacity(),
        cache.serve_all(requests).capacity() == cache.capacity(),
        forall|key: K|
            !(cache.serve_all(requests).small_queue.contains(key) && cache.serve_all(
                requests,
            ).main_queue.contains(key)),
    decreases requests.len(),
{
    if requests.len() > 0 {
        law_workload_keeps_invariant(cache, requests.drop_last());
        let before = cache.serve_all(requests.drop_last());
        match requests.last() {
            Request::Get(key) => {
                before.lemma_get(key);
            },
            Request::Put(key, value) => {
                before.lemma_put(key, value);
            },
        }
    }
}

/// The counter of a live key saturates: after `count` lookups it is the
/// smaller of its old value plus `count` and `FREQ_MAX`; so after `count` hits
/// on a fresh entry it is the smaller of `count` and `FREQ_MAX`.
pub proof fn law_frequency_saturates<K, V>(cache: S3View<K, V>, key: K, count: nat)
    requires
        cache.wf(),
        cache.contains(key),
    ensures
        cache.get_times(key, count).wf(),
        cache.get_times(key, count).contains(key),
        cache.get_times(key, count).lookup(key) == cache.lookup(key),
        cache.freq(key) <= FREQ_MAX ==> cache.get_times(key, count).freq(key) == if cache.freq(key)
            + count <= FREQ_MAX {
            cache.freq(key) + count
        } else {
            FREQ_MAX as nat
        },
        cache.freq(key) == 0 ==> cache.get_times(key, count).freq(key) == if count <= FREQ_MAX {
            count
        } else {
            FREQ_MAX as nat
        },
    decreases count,
{
    if count > 0 {
        law_frequency_saturates(cache, key, (count - 1) as nat);
        let before = cache.get_times(key, (count - 1) as nat);
        before.lemma_get(key);
    }
}

/// A lookup right after `put` finds the value that was put.
pub proof fn law_put_then_get<K, V>(cache: S3View<K, V>, key: K, value: V)
    requires
        cache.wf(),
    ensures
        cache.put(key, value).lookup(key) == Some(value),
{
    cache.lemma_put(key, value);
}

/// Of two values put for one key, a lookup finds the second.
pub proof fn law_put_overwrites<K, V>(cache: S3View<K, V>, key: K, first: V, second: V)
    requires
        cache.wf(),
    ensures
        cache.put(key, first).put(key, second).lookup(key) == Some(second),
{
    cache.lemma_put(key, first);
    cache.put(key, first).lemma_put(key, second);
}

/// Putting a key again and again moves nothing: the queues are as the first
/// `put` left them, the key's counter too, and a lookup finds the last value.
pub proof fn law_repeated_put<K, V>(cache: S3View<K, V>, key: K, first: V, more: Seq<V>)
    requires
        cache.wf(),
    ensures
        ({
            let once = cache.put(key, first);
            let end = once.put_each(key, more);
            &&& end.wf()
            &&& end.small_queue.order == once.small_queue.order
            &&& end.main_queue.order == once.main_queue.order
            &&& end.ghost_queue == once.ghost_queue
            &&& end.freq(key) == once.freq(key)
            &&& end.lookup(key) == Some(if more.len() == 0 {
                first
            } else {
                more.last()
            })
        }),
    decreases more.len(),
{
    let once = cache.put(key, first);
    cache.lemma_put(key, first);
    if more.len() > 0 {
        law_repeated_put(cache, key, first, more.drop_last());
        let before = once.put_each(key, more.drop_last());
        before.lemma_put(key, more.last());
    }
}

} // verus!
