//! A ring buffer of fixed capacity that overwrites on overflow, and the index
//! arithmetic it rests on.

use vstd::prelude::*;

verus! {

/// Index reached from `index` by moving `delta` slots around a ring of `capacity` slots.
pub open spec fn spec_offset(index: int, delta: int, capacity: int) -> int {
    (index + delta) % capacity
}

/// Moves `delta` slots from `index` around a ring of `capacity` slots, forward
/// or, for a `delta` below zero, backward. The result is the Euclidean
/// remainder of `index + delta`, so it always names a slot of the ring.
pub fn offset(index: usize, delta: isize, capacity: usize) -> (r: usize)
    requires
        capacity >= 1,
    ensures
        r == spec_offset(index as int, delta as int, capacity as int),
        r < capacity,
{
    let start: usize = index % capacity;
    if delta >= 0 {
        let ahead: usize = (delta as usize) % capacity;
        proof {
            vstd::arithmetic::div_mod::lemma_add_mod_noop(
                index as int,
                delta as int,
                capacity as int,
            );
            lemma_wrap(start + ahead, capacity as int);
        }
        let room: usize = capacity - start;
        if ahead < room {
            start + ahead
        } else {
            ahead - room
        }
    } else {
        // `delta` is below zero, and `-(delta + 1)` is one less than the way back
        let behind: usize = (-(delta + 1)) as usize;
        let back: usize = behind % capacity;
        proof {
            let c = capacity as int;
            let laps = index as int / c - behind as int / c;
            vstd::arithmetic::div_mod::lemma_fundamental_div_mod(index as int, c);
            vstd::arithmetic::div_mod::lemma_fundamental_div_mod(behind as int, c);
            vstd::arithmetic::mul::lemma_mul_is_distributive_sub(
                c,
                index as int / c,
                behind as int / c,
            );
            assert(index + delta == c * laps + (start - back - 1));
            vstd::arithmetic::div_mod::lemma_mod_multiples_vanish(laps, start - back - 1, c);
            lemma_wrap(start - back - 1, c);
        }
        if back < start {
            start - back - 1
        } else {
            capacity - 1 - (back - start)
        }
    }
}

/// Reduction modulo `capacity` of an index that lies at most one lap outside the ring.
pub proof fn lemma_wrap(i: int, capacity: int)
    requires
        capacity >= 1,
        -capacity <= i < 2 * capacity,
    ensures
        i % capacity == if i < 0 {
            i + capacity
        } else if i < capacity {
            i
        } else {
            i - capacity
        },
{
    if i < 0 {
        vstd::arithmetic::div_mod::lemma_mod_add_multiples_vanish(i, capacity);
        vstd::arithmetic::div_mod::lemma_small_mod((i + capacity) as nat, capacity as nat);
    } else if i < capacity {
        vstd::arithmetic::div_mod::lemma_small_mod(i as nat, capacity as nat);
    } else {
        vstd::arithmetic::div_mod::lemma_mod_add_multiples_vanish(i - capacity, capacity);
        vstd::arithmetic::div_mod::lemma_small_mod((i - capacity) as nat, capacity as nat);
    }
}

/// The content of a ring with `capacity` slots after `value` was pushed at its
/// back: a full ring loses its oldest element.
pub open spec fn push_back_spec<T>(content: Seq<T>, capacity: nat, value: T) -> Seq<T> {
    if content.len() == capacity {
        content.drop_first().push(value)
    } else {
        content.push(value)
    }
}

/// The content of a ring with `capacity` slots after `value` was pushed at its
/// front: a full ring loses its newest element.
pub open spec fn push_front_spec<T>(content: Seq<T>, capacity: nat, value: T) -> Seq<T> {
    if content.len() == capacity {
        seq![value] + content.drop_last()
    } else {
        seq![value] + content
    }
}

/// A fixed-capacity double-ended queue over a contiguous buffer.
///
/// Its view is the sequence of the elements it holds, oldest first.
/// Pushing onto a full buffer silently overwrites the element at the other end.
pub struct RingBuffer<T> {
    buffer: Vec<Option<T>>,
    head: usize,
    tail: usize,
    size: usize,
}

impl<T> View for RingBuffer<T> {
    type V = Seq<T>;

    closed spec fn view(&self) -> Seq<T> {
        Seq::new(self.size as nat, |i: int| self.buffer@[self.slot(i)].unwrap())
    }
}

impl<T> RingBuffer<T> {
    /// Position in the backing buffer of the `i`-th oldest element.
    closed spec fn slot(&self, i: int) -> int {
        spec_offset(self.head as int, i, self.buffer@.len() as int)
    }

    /// Number of slots of the backing buffer.
    pub closed spec fn spec_capacity(&self) -> nat {
        self.buffer@.len()
    }

    /// The representation invariant: the indices lie inside the buffer, `tail` is
    /// `size` slots after `head`, and every occupied slot holds an element.
    pub closed spec fn wf(&self) -> bool {
        &&& self.buffer@.len() >= 1
        &&& self.head < self.buffer@.len()
        &&& self.tail < self.buffer@.len()
        &&& self.size <= self.buffer@.len()
        &&& self.tail as int == self.slot(self.size as int)
        &&& forall|i: int| 0 <= i < self.size ==> (#[trigger] self.buffer@[self.slot(i)]).is_some()
    }

    /// Whether the buffer holds as many elements as it has slots.
    pub open spec fn spec_is_full(&self) -> bool {
        self@.len() == self.spec_capacity()
    }

    /// A well-formed buffer never holds more than its capacity, which is at least one.
    pub proof fn lemma_len_bounded(&self)
        requires
            self.wf(),
        ensures
            self@.len() <= self.spec_capacity(),
            self.spec_capacity() >= 1,
    {
    }

    /// The position of the `i`-th oldest element without the remainder.
    proof fn lemma_slot(&self, i: int)
        requires
            self.buffer@.len() >= 1,
            self.head < self.buffer@.len(),
            0 <= i <= self.buffer@.len(),
        ensures
            self.slot(i) == if self.head + i < self.buffer@.len() {
                self.head + i
            } else {
                self.head + i - self.buffer@.len()
            },
    {
        lemma_wrap(self.head + i, self.buffer@.len() as int);
    }

    /// An empty buffer with `capacity` slots.
    pub fn new(capacity: usize) -> (r: Self)
        requires
            capacity >= 1,
        ensures
            r.wf(),
            r@ == Seq::<T>::empty(),
            r.spec_capacity() == capacity,
    {
        let mut buffer: Vec<Option<T>> = Vec::new();
        let mut i: usize = 0;
        while i < capacity
            invariant
                i <= capacity,
                buffer@.len() == i,
            decreases capacity - i,
        {
            buffer.push(None);
            i = i + 1;
        }
        let r = RingBuffer { buffer, head: 0, tail: 0, size: 0 };
        proof {
            r.lemma_slot(0);
            assert(r@ =~= Seq::<T>::empty());
        }
        r
    }

    /// The number of elements held.
    pub fn len(&self) -> (r: usize)
        requires
            self.wf(),
        ensures
            r == self@.len(),
    {
        self.size
    }

    /// The number of slots.
    pub fn capacity(&self) -> (r: usize)
        requires
            self.wf(),
        ensures
            r == self.spec_capacity(),
            r >= 1,
    {
        self.buffer.len()
    }

    /// Whether the next push overwrites an element.
    #[verifier::when_used_as_spec(spec_is_full)]
    pub fn is_full(&self) -> (r: bool)
        requires
            self.wf(),
        ensures
            r == (self@.len() == self.spec_capacity()),
    {
        self.size == self.buffer.len()
    }

    /// Whether no element is held.
    pub fn is_empty(&self) -> (r: bool)
        requires
            self.wf(),
        ensures
            r == (self@.len() == 0),
    {
        self.size == 0
    }

    /// Appends `value` as the newest element. On a full buffer the oldest element
    /// is overwritten, so the length stays at the capacity.
    pub fn push_back(&mut self, value: T)
        requires
            old(self).wf(),
        ensures
            final(self).wf(),
            final(self).spec_capacity() == old(self).spec_capacity(),
            final(self)@ == push_back_spec(old(self)@, old(self).spec_capacity(), value),
    {
        let capacity = self.buffer.len();
        let full = self.size == capacity;
        proof {
            self.lemma_slot(self.size as int);
        }
        self.buffer[self.tail] = Some(value);
        self.tail = offset(self.tail, 1, capacity);
        if full {
            self.head = offset(self.head, 1, capacity);
        } else {
            self.size = self.size + 1;
        }
        proof {
            lemma_wrap(old(self).tail + 1, capacity as int);
            lemma_wrap(old(self).head + 1, capacity as int);
            let expected = push_back_spec(old(self)@, capacity as nat, value);
            assert forall|i: int| 0 <= i < self.size implies (#[trigger] self.buffer@[self.slot(
                i,
            )]).is_some() && self.buffer@[self.slot(i)].unwrap() == expected[i] by {
                self.lemma_slot(i);
                if full {
                    old(self).lemma_slot(i + 1);
                } else {
                    old(self).lemma_slot(i);
                }
            }
            self.lemma_slot(self.size as int);
        }
    }

    /// Prepends `value` as the oldest element. On a full buffer the newest element
    /// is overwritten, so the length stays at the capacity.
    pub fn push_front(&mut self, value: T)
        requires
            old(self).wf(),
        ensures
            final(self).wf(),
            final(self).spec_capacity() == old(self).spec_capacity(),
            final(self)@ == push_front_spec(old(self)@, old(self).spec_capacity(), value),
    {
        let capacity = self.buffer.len();
        let full = self.size == capacity;
        proof {
            self.lemma_slot(self.size as int);
            lemma_wrap(self.head - 1, capacity as int);
        }
        self.head = offset(self.head, -1, capacity);
        self.buffer[self.head] = Some(value);
        if full {
            self.tail = offset(self.tail, -1, capacity);
        } else {
            self.size = self.size + 1;
        }
        proof {
            let expected = push_front_spec(old(self)@, capacity as nat, value);
            assert forall|i: int| 0 <= i < self.size implies (#[trigger] self.buffer@[self.slot(
                i,
            )]).is_some() && self.buffer@[self.slot(i)].unwrap() == expected[i] by {
                self.lemma_slot(i);
                if i > 0 {
                    old(self).lemma_slot(i - 1);
                }
            }
            self.lemma_slot(self.size as int);
        }
    }

    /// Removes and returns the oldest element, or `None` when the buffer is empty.
    pub fn pop_front(&mut self) -> (r: Option<T>)
        requires
            old(self).wf(),
        ensures
            final(self).wf(),
            final(self).spec_capacity() == old(self).spec_capacity(),
            match r {
                Some(value) => old(self)@.len() > 0 && value == old(self)@[0] && final(self)@
                    == old(self)@.drop_first(),
                None => old(self)@.len() == 0 && final(self)@ == old(self)@,
            },
    {
        if self.size == 0 {
            return None;
        }
        let capacity = self.buffer.len();
        proof {
            self.lemma_slot(0);
            self.lemma_slot(self.size as int);
        }
        let value = self.buffer[self.head].take();
        self.head = offset(self.head, 1, capacity);
        self.size = self.size - 1;
        proof {
            lemma_wrap(old(self).head + 1, capacity as int);
            assert forall|i: int| 0 <= i < self.size implies (#[trigger] self.buffer@[self.slot(
                i,
            )]).is_some() && self.buffer@[self.slot(i)].unwrap() == old(self)@[i + 1] by {
                self.lemma_slot(i);
                old(self).lemma_slot(i + 1);
            }
            self.lemma_slot(self.size as int);
        }
        value
    }

    /// Removes and returns the newest element, or `None` when the buffer is empty.
    pub fn pop_back(&mut self) -> (r: Option<T>)
        requires
            old(self).wf(),
        ensures
            final(self).wf(),
            final(self).spec_capacity() == old(self).spec_capacity(),
            match r {
                Some(value) => old(self)@.len() > 0 && value == old(self)@.last() && final(self)@
                    == old(self)@.drop_last(),
                None => old(self)@.len() == 0 && final(self)@ == old(self)@,
            },
    {
        if self.size == 0 {
            return None;
        }
        let capacity = self.buffer.len();
        proof {
            self.lemma_slot(self.size as int);
            self.lemma_slot(self.size - 1);
            lemma_wrap(self.tail - 1, capacity as int);
        }
        self.tail = offset(self.tail, -1, capacity);
        let value = self.buffer[self.tail].take();
        self.size = self.size - 1;
        proof {
            assert forall|i: int| 0 <= i < self.size implies (#[trigger] self.buffer@[self.slot(
                i,
            )]).is_some() && self.buffer@[self.slot(i)].unwrap() == old(self)@[i] by {
                old(self).lemma_slot(i);
            }
        }
        value
    }
}

impl<T: Clone> RingBuffer<T> {
    /// A copy of the oldest element, or `None` when the buffer is empty.
    pub fn peek_front(&self) -> (r: Option<T>)
        requires
            self.wf(),
        ensures
            match r {
                Some(value) => self@.len() > 0 && cloned(self@[0], value),
                None => self@.len() == 0,
            },
    {
        if self.size == 0 {
            return None;
        }
        proof {
            self.lemma_slot(0);
        }
        self.buffer[self.head].clone()
    }

    /// A copy of the newest element, or `None` when the buffer is empty.
    pub fn peek_back(&self) -> (r: Option<T>)
        requires
            self.wf(),
        ensures
            match r {
                Some(value) => self@.len() > 0 && cloned(self@.last(), value),
                None => self@.len() == 0,
            },
    {
        if self.size == 0 {
            return None;
        }
        let capacity = self.buffer.len();
        proof {
            self.lemma_slot(self.size as int);
            self.lemma_slot(self.size - 1);
            lemma_wrap(self.tail - 1, capacity as int);
        }
        let newest = offset(self.tail, -1, capacity);
        self.buffer[newest].clone()
    }

    /// Copies of the elements, oldest first.
    pub fn get_values(&self) -> (r: Vec<T>)
        requires
            self.wf(),
        ensures
            r@.len() == self@.len(),
            forall|i: int| 0 <= i < r@.len() ==> cloned(self@[i], #[trigger] r@[i]),
    {
        let capacity = self.buffer.len();
        let mut values: Vec<T> = Vec::new();
        let mut index = self.head;
        let mut i: usize = 0;
        proof {
            self.lemma_slot(0);
        }
        while i < self.size
            invariant
                self.wf(),
                capacity == self.buffer@.len(),
                i <= self.size,
                index as int == self.slot(i as int),
                index < capacity,
                values@.len() == i,
                forall|j: int| 0 <= j < i ==> cloned(self@[j], #[trigger] values@[j]),
            decreases self.size - i,
        {
            proof {
                self.lemma_slot(i as int);
                self.lemma_slot(i + 1);
                lemma_wrap(index + 1, capacity as int);
            }
            if let Some(value) = &self.buffer[index] {
                values.push(value.clone());
            }
            index = offset(index, 1, capacity);
            i = i + 1;
        }
        values
    }
}

} // verus!
