//! A bounded FIFO ring of `N` slots addressed by free-running counters:
//! each position counter only ever grows (wrapping at the end of `usize`),
//! and a position maps to the slot `position % N`.
//!
//! The producer and consumer policies name how many parties may push and
//! pop; every operation here takes the buffer by unique reference, so each
//! completes as one step and both policies share the same behaviour.

use vstd::prelude::*;
use core::marker::PhantomData;
use crate::model::{pop_front, push_bounded};
use crate::modular::{lemma_mod_distinct, lemma_mod_of_multiple, lemma_mod_once};
use vstd::arithmetic::div_mod::lemma_add_mod_noop;

verus! {

/// How many parties push into a buffer.
pub trait ProducerPolicy {}

/// How many parties pop from a buffer.
pub trait ConsumerPolicy {}

/// Exactly one party.
pub struct Single;

/// Any number of parties.
pub struct Multi;

impl ProducerPolicy for Single {}

impl ProducerPolicy for Multi {}

impl ConsumerPolicy for Single {}

impl ConsumerPolicy for Multi {}

/// Number of distinct values of a position counter.
pub open spec fn counter_span() -> int {
    usize::MAX as int + 1
}

/// Whether `n` slots divide the counter range evenly, so that a wrapping
/// counter keeps visiting the slots in order.
pub open spec fn wraps_evenly(n: int) -> bool {
    n > 0 && counter_span() % n == 0
}

/// `N` divides the counter range exactly when `usize::MAX % N` is `N - 1`.
proof fn lemma_wraps_evenly_iff(n: int)
    requires
        n > 0,
    ensures
        wraps_evenly(n) <==> (usize::MAX as int) % n == n - 1,
{
    let x = usize::MAX as int;
    if n == 1 {
        assert(x % 1 == 0) by (nonlinear_arith);
        assert((x + 1) % 1 == 0) by (nonlinear_arith);
    } else {
        lemma_add_mod_noop(x, 1, n);
        lemma_mod_once(1, n);
        lemma_mod_once(x % n + 1, n);
    }
}

/// The position after `p`: one more, or 0 after `usize::MAX`.
pub open spec fn next_position(p: nat) -> nat {
    if p < usize::MAX {
        p + 1
    } else {
        0
    }
}

/// Bounded FIFO ring buffer with room for `N` items.
#[verifier::reject_recursive_types(T)]
pub struct RingBuf<T, const N: usize, P: ProducerPolicy, C: ConsumerPolicy> {
    data: Vec<Option<T>>,
    write_head: usize,
    write_tail: usize,
    read_head: usize,
    read_tail: usize,
    _p: PhantomData<P>,
    _c: PhantomData<C>,
}

/// One producer, one consumer.
pub type SpscRingBuf<T, const N: usize> = RingBuf<T, N, Single, Single>;

/// Many producers, one consumer.
pub type MpscRingBuf<T, const N: usize> = RingBuf<T, N, Multi, Single>;

/// Many producers, many consumers.
pub type MpmcRingBuf<T, const N: usize> = RingBuf<T, N, Multi, Multi>;

impl<T, const N: usize, P: ProducerPolicy, C: ConsumerPolicy> View for RingBuf<T, N, P, C> {
    type V = Seq<T>;

    /// The stored items, oldest first.
    closed spec fn view(&self) -> Seq<T> {
        Seq::new(self.count(), |i: int| self.data@[self.slot(i)]->0)
    }
}

impl<T, const N: usize, P: ProducerPolicy, C: ConsumerPolicy> RingBuf<T, N, P, C> {
    /// Items between the read and the write position.
    closed spec fn count(&self) -> nat {
        if self.write_tail >= self.read_tail {
            (self.write_tail - self.read_tail) as nat
        } else {
            (self.write_tail - self.read_tail + counter_span()) as nat
        }
    }

    /// Slot of the `i`-th stored item.
    closed spec fn slot(&self, i: int) -> int {
        ((self.read_tail + i) % counter_span()) % (N as int)
    }

    /// The heads agree with the tails, at most `N` items are stored, each in
    /// a slot of its own.
    pub closed spec fn wf(&self) -> bool {
        &&& self.data@.len() == N
        &&& self.write_head == self.write_tail
        &&& self.read_head == self.read_tail
        &&& self.count() <= N
        &&& forall|i: int| 0 <= i < self.count() ==> (#[trigger] self.data@[self.slot(i)]) is Some
        &&& forall|i: int, j: int|
            0 <= i < j < self.count() ==> #[trigger] self.slot(i) != #[trigger] self.slot(j)
    }

    /// The slot the next push writes holds no stored item. It always holds
    /// when `N` divides the counter range; otherwise it fails only around
    /// the point where the write counter wraps.
    pub closed spec fn next_slot_free(&self) -> bool {
        forall|i: int| 0 <= i < self.count() ==> #[trigger] self.slot(i) != self.slot(self.count() as int)
    }

    /// Position counter of the next write; it wraps to 0 after `usize::MAX`.
    pub closed spec fn write_position(&self) -> nat {
        self.write_tail as nat
    }

    /// Position counter of the next read; it wraps to 0 after `usize::MAX`.
    pub closed spec fn read_position(&self) -> nat {
        self.read_tail as nat
    }

    /// A push keeps first-in first-out order: the buffer is full, or `N`
    /// divides the counter range, or the write counter has not wrapped
    /// behind the read counter, or the slot it writes is free anyway.
    pub open spec fn push_keeps_order(&self) -> bool {
        self@.len() < N ==> {
            ||| wraps_evenly(N as int)
            ||| self.read_position() <= self.write_position()
            ||| self.next_slot_free()
        }
    }

    /// The item count is the distance from the read to the write counter.
    pub proof fn lemma_len_is_distance(&self)
        requires
            self.wf(),
        ensures
            self@.len() == (if self.read_position() <= self.write_position() {
                self.write_position() - self.read_position()
            } else {
                self.write_position() - self.read_position() + counter_span()
            }),
            self.read_position() <= usize::MAX,
            self.write_position() <= usize::MAX,
    {
    }

    /// A push into an empty buffer always keeps first-in first-out order.
    pub proof fn lemma_empty_push_keeps_order(&self)
        requires
            self.wf(),
            self@.len() == 0,
        ensures
            self.push_keeps_order(),
    {
    }

    /// While the write counter is not behind the read counter, the `i`-th
    /// item sits in slot `(read + i) % N` and the next push finds its slot
    /// free.
    proof fn lemma_unwrapped_slots(&self)
        requires
            self.wf(),
            self.read_tail <= self.write_tail,
            self.count() < N,
        ensures
            self.next_slot_free(),
    {
        let n = N as int;
        let m = counter_span();
        let c = self.count() as int;
        lemma_mod_once(self.read_tail + c, m);
        assert forall|i: int| 0 <= i < c implies #[trigger] self.slot(i) != self.slot(c) by {
            lemma_mod_once(self.read_tail + i, m);
            lemma_mod_distinct(self.read_tail + i, c - i, n);
        }
    }

    /// When `N` divides the counter range, the `i`-th item sits in slot
    /// `(read + i) % N` and the next push finds its slot free.
    proof fn lemma_even_slots(&self)
        requires
            self.wf(),
            wraps_evenly(N as int),
            self.count() < N,
        ensures
            self.next_slot_free(),
    {
        let n = N as int;
        let c = self.count() as int;
        lemma_mod_of_multiple(self.read_tail + c, n, counter_span());
        assert forall|i: int| 0 <= i < c implies #[trigger] self.slot(i) != self.slot(c) by {
            lemma_mod_of_multiple(self.read_tail + i, n, counter_span());
            lemma_mod_distinct(self.read_tail + i, c - i, n);
        }
    }

    /// The write position is the read position advanced by the item count.
    proof fn lemma_write_position(&self)
        requires
            self.wf(),
        ensures
            self.write_tail as int == (self.read_tail + self.count()) % counter_span(),
            self.read_tail as int == (self.read_tail as int) % counter_span(),
    {
        lemma_mod_once(self.read_tail + self.count(), counter_span());
        lemma_mod_once(self.read_tail as int, counter_span());
    }

    /// A valid buffer never holds more than `N` items.
    pub proof fn lemma_len_at_most_capacity(&self)
        requires
            self.wf(),
        ensures
            self@.len() <= N,
    {
    }

    /// An empty buffer.
    pub fn new() -> (r: Self)
        ensures
            r.wf(),
            r@ == Seq::<T>::empty(),
            r.write_position() == 0,
            r.read_position() == 0,
    {
        let mut data: Vec<Option<T>> = Vec::new();
        let mut i: usize = 0;
        while i < N
            invariant
                i <= N,
                data@.len() == i,
            decreases N - i,
        {
            data.push(None);
            i = i + 1;
        }
        let r = Self {
            data,
            write_head: 0,
            write_tail: 0,
            read_head: 0,
            read_tail: 0,
            _p: PhantomData,
            _c: PhantomData,
        };
        assert(r@ =~= Seq::<T>::empty());
        r
    }

    /// Number of stored items.
    pub fn len(&self) -> (r: usize)
        requires
            self.wf(),
        ensures
            r == self@.len(),
    {
        self.write_tail.wrapping_sub(self.read_tail)
    }

    /// Whether no further item fits.
    pub fn is_full(&self) -> (r: bool)
        requires
            self.wf(),
        ensures
            r == (self@.len() >= N),
            r == (self@.len() == N),
    {
        self.len() >= N
    }

    /// Whether a push now keeps first-in first-out order.
    pub fn can_push(&self) -> (r: bool)
        requires
            self.wf(),
        ensures
            r == self.push_keeps_order(),
    {
        let count = self.len();
        if count >= N {
            return true;
        }
        proof {
            lemma_wraps_evenly_iff(N as int);
        }
        if usize::MAX % N == N - 1 {
            return true;
        }
        if self.read_tail <= self.write_tail {
            return true;
        }
        proof {
            self.lemma_write_position();
        }
        let target = self.write_tail % N;
        let mut pos = self.read_tail;
        let mut i: usize = 0;
        while i < count
            invariant
                self.wf(),
                count == self.count(),
                count < N,
                !wraps_evenly(N as int),
                self.read_tail > self.write_tail,
                i <= count,
                target == self.slot(count as int),
                pos as int == (self.read_tail + i) % counter_span(),
                forall|j: int| 0 <= j < i ==> #[trigger] self.slot(j) != target,
            decreases count - i,
        {
            if pos % N == target {
                assert(self.slot(i as int) == target);
                return false;
            }
            proof {
                let m = counter_span();
                lemma_add_mod_noop(self.read_tail + i, 1, m);
                lemma_mod_once(1, m);
                lemma_mod_once(pos + 1, m);
            }
            pos = pos.wrapping_add(1);
            i = i + 1;
        }
        true
    }

    /// Whether `head` is at least `N` positions past `tail`.
    pub fn is_full_raw(head: usize, tail: usize) -> (r: bool)
        ensures
            r == (vstd::wrapping::usize_specs::wrapping_sub(head, tail) >= N),
    {
        head.wrapping_sub(tail) >= N
    }

    /// Whether no item is stored.
    pub fn is_empty(&self) -> (r: bool)
        requires
            self.wf(),
        ensures
            r == (self@.len() == 0),
    {
        self.len() == 0
    }

    /// Whether the two positions coincide.
    pub fn is_empty_raw(head: usize, tail: usize) -> (r: bool)
        ensures
            r == (head == tail),
    {
        head == tail
    }

    /// Number of slots.
    pub fn capacity(&self) -> (r: usize)
        ensures
            r == N,
    {
        N
    }

    /// Appends `item` after the newest item, or hands it back when full.
    fn push_item(&mut self, item: T) -> (r: Result<(), T>)
        requires
            old(self).wf(),
            old(self).push_keeps_order(),
        ensures
            final(self).wf(),
            r is Ok <==> old(self)@.len() < N,
            r is Ok ==> final(self)@ == old(self)@.push(item),
            final(self)@ == push_bounded(old(self)@, N as nat, item),
            r is Ok ==> final(self).write_position() == next_position(old(self).write_position()),
            r matches Err(x) ==> x == item && final(self)@ == old(self)@,
            r is Err ==> final(self).write_position() == old(self).write_position(),
            final(self).read_position() == old(self).read_position(),
    {
        let head = self.write_head;
        let tail = self.read_tail;
        if Self::is_full_raw(head, tail) {
            return Err(item);
        }
        let ghost old_self = *self;
        proof {
            if wraps_evenly(N as int) {
                self.lemma_even_slots();
            } else if self.read_tail <= self.write_tail {
                self.lemma_unwrapped_slots();
            }
            self.lemma_write_position();
        }
        let next = head.wrapping_add(1);
        let idx = head % N;
        self.data.set(idx, Some(item));
        self.write_head = next;
        self.write_tail = next;
        proof {
            let c = old_self.count() as int;
            assert(self.count() == c + 1);
            assert(old_self.slot(c) == idx);
            assert forall|i: int| 0 <= i <= c implies #[trigger] self.slot(i) == old_self.slot(i) by {}
            assert forall|i: int| 0 <= i < c implies #[trigger] self@[i] == old_self@[i] by {
                assert(old_self.slot(i) != old_self.slot(c));
            }
            assert(self@ =~= old_self@.push(item));
            assert forall|i: int| 0 <= i < self.count() implies (#[trigger] self.data@[self.slot(i)]) is Some by {
                if i < c {
                    assert(old_self.slot(i) != old_self.slot(c));
                }
            }
            assert forall|i: int, j: int| 0 <= i < j < self.count() implies
                #[trigger] self.slot(i) != #[trigger] self.slot(j) by {
                if j < c {
                    assert(old_self.slot(i) != old_self.slot(j));
                } else {
                    assert(old_self.slot(i) != old_self.slot(c));
                }
            }
        }
        Ok(())
    }

    /// Removes and returns the oldest item, or `None` when empty.
    fn pop_item(&mut self) -> (r: Option<T>)
        requires
            old(self).wf(),
        ensures
            final(self).wf(),
            r is None <==> old(self)@.len() == 0,
            (final(self)@, r) == pop_front(old(self)@),
            r is None ==> final(self)@ == old(self)@,
            r matches Some(x) ==> x == old(self)@[0] && final(self)@ == old(self)@.drop_first(),
            r is Some ==> final(self).read_position() == next_position(old(self).read_position()),
            r is None ==> final(self).read_position() == old(self).read_position(),
            final(self).write_position() == old(self).write_position(),
    {
        let head = self.read_head;
        let tail = self.write_tail;
        if Self::is_empty_raw(head, tail) {
            return None;
        }
        let ghost old_self = *self;
        proof {
            self.lemma_write_position();
        }
        let idx = head % N;
        let mut item: Option<T> = None;
        self.data.set_and_swap(idx, &mut item);
        let next = head.wrapping_add(1);
        self.read_head = next;
        self.read_tail = next;
        proof {
            let c = old_self.count() as int;
            let m = counter_span();
            assert(c >= 1);
            assert(old_self.slot(0) == idx);
            assert(self.count() == c - 1);
            assert forall|i: int| 0 <= i < c - 1 implies #[trigger] self.slot(i) == old_self.slot(i + 1) by {
                lemma_mod_once(head + 1, m);
                lemma_add_mod_noop(head + 1, i, m);
                lemma_mod_once(i, m);
            }
            assert forall|i: int| 0 <= i < c - 1 implies #[trigger] self@[i] == old_self@[i + 1] by {
                assert(old_self.slot(0) != old_self.slot(i + 1));
            }
            assert(self@ =~= old_self@.drop_first());
            assert forall|i: int| 0 <= i < self.count() implies (#[trigger] self.data@[self.slot(i)]) is Some by {
                assert(old_self.slot(0) != old_self.slot(i + 1));
            }
            assert forall|i: int, j: int| 0 <= i < j < self.count() implies
                #[trigger] self.slot(i) != #[trigger] self.slot(j) by {
                assert(old_self.slot(i + 1) != old_self.slot(j + 1));
            }
        }
        item
    }
}

impl<T, const N: usize, C: ConsumerPolicy> RingBuf<T, N, Single, C> {
    /// Appends `item` after the newest item. When the buffer is full the
    /// item is handed back in `Err` and the buffer is left as it was.
    pub fn push(&mut self, item: T) -> (r: Result<(), T>)
        requires
            old(self).wf(),
            old(self).push_keeps_order(),
        ensures
            final(self).wf(),
            r is Ok <==> old(self)@.len() < N,
            r is Ok ==> final(self)@ == old(self)@.push(item),
            final(self)@ == push_bounded(old(self)@, N as nat, item),
            r is Ok ==> final(self).write_position() == next_position(old(self).write_position()),
            r matches Err(x) ==> x == item && final(self)@ == old(self)@,
            r is Err ==> final(self).write_position() == old(self).write_position(),
            final(self).read_position() == old(self).read_position(),
    {
        self.push_item(item)
    }
}

impl<T, const N: usize, C: ConsumerPolicy> RingBuf<T, N, Multi, C> {
    /// Appends `item` after the newest item. When the buffer is full the
    /// item is handed back in `Err` and the buffer is left as it was.
    pub fn push(&mut self, item: T) -> (r: Result<(), T>)
        requires
            old(self).wf(),
            old(self).push_keeps_order(),
        ensures
            final(self).wf(),
            r is Ok <==> old(self)@.len() < N,
            r is Ok ==> final(self)@ == old(self)@.push(item),
            final(self)@ == push_bounded(old(self)@, N as nat, item),
            r is Ok ==> final(self).write_position() == next_position(old(self).write_position()),
            r matches Err(x) ==> x == item && final(self)@ == old(self)@,
            r is Err ==> final(self).write_position() == old(self).write_position(),
            final(self).read_position() == old(self).read_position(),
    {
        self.push_item(item)
    }
}

impl<T, const N: usize, P: ProducerPolicy> RingBuf<T, N, P, Single> {
    /// Removes and returns the oldest item, or `None` when the buffer is empty.
    pub fn pop(&mut self) -> (r: Option<T>)
        requires
            old(self).wf(),
        ensures
            final(self).wf(),
            r is None <==> old(self)@.len() == 0,
            (final(self)@, r) == pop_front(old(self)@),
            r is None ==> final(self)@ == old(self)@,
            r matches Some(x) ==> x == old(self)@[0] && final(self)@ == old(self)@.drop_first(),
            r is Some ==> final(self).read_position() == next_position(old(self).read_position()),
            r is None ==> final(self).read_position() == old(self).read_position(),
            final(self).write_position() == old(self).write_position(),
    {
        self.pop_item()
    }
}

impl<T, const N: usize, P: ProducerPolicy> RingBuf<T, N, P, Multi> {
    /// Removes and returns the oldest item, or `None` when the buffer is empty.
    pub fn pop(&mut self) -> (r: Option<T>)
        requires
            old(self).wf(),
        ensures
            final(self).wf(),
            r is None <==> old(self)@.len() == 0,
            (final(self)@, r) == pop_front(old(self)@),
            r is None ==> final(self)@ == old(self)@,
            r matches Some(x) ==> x == old(self)@[0] && final(self)@ == old(self)@.drop_first(),
            r is Some ==> final(self).read_position() == next_position(old(self).read_position()),
            r is None ==> final(self).read_position() == old(self).read_position(),
            final(self).write_position() == old(self).write_position(),
    {
        self.pop_item()
    }
}

} // verus!
