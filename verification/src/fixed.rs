//! A ring of `usize` values with `N` slots, a write index, a read index and a
//! flag telling a full ring from an empty one.

use vstd::prelude::*;
use crate::model::{pop_front, push_bounded};
use crate::modular::lemma_mod_once;

verus! {

/// Ring buffer of `N` `usize` slots. `head` is the next slot written,
/// `tail` the next slot read, and `full` tells the two apart when they meet.
#[derive(Debug)]
pub struct RingBuf<const N: usize> {
    pub data: Vec<usize>,
    pub head: usize,
    pub tail: usize,
    pub full: bool,
}

impl<const N: usize> View for RingBuf<N> {
    type V = Seq<usize>;

    /// The stored values, oldest first.
    open spec fn view(&self) -> Seq<usize> {
        Seq::new(self.spec_len(), |i: int| self.data@[(self.tail + i) % (N as int)])
    }
}

impl<const N: usize> RingBuf<N> {
    /// The indices lie inside the ring and a full ring has meeting indices.
    pub open spec fn wf(&self) -> bool {
        &&& self.data@.len() == N
        &&& if N == 0 {
            self.head == 0 && self.tail == 0 && !self.full
        } else {
            self.head < N && self.tail < N
        }
        &&& self.full ==> self.head == self.tail
    }

    /// Number of stored values.
    pub open spec fn spec_len(&self) -> nat {
        if self.full {
            N as nat
        } else if self.head >= self.tail {
            (self.head - self.tail) as nat
        } else {
            (self.head + N - self.tail) as nat
        }
    }

    /// A valid ring never holds more than `N` values.
    pub proof fn lemma_len_at_most_capacity(&self)
        requires
            self.wf(),
        ensures
            self@.len() <= N,
    {
    }

    /// An empty ring of `N` zeroed slots.
    pub fn new() -> (r: Self)
        ensures
            r.wf(),
            r@ == Seq::<usize>::empty(),
            r.data@ == Seq::new(N as nat, |i: int| 0usize),
            r.head == 0,
            r.tail == 0,
            !r.full,
    {
        let data: Vec<usize> = vec![0usize; N];
        let r = Self { data, head: 0, tail: 0, full: false };
        assert(r@ =~= Seq::<usize>::empty());
        r
    }

    /// Stores `data` in the next free slot. Returns `false`, and changes
    /// nothing, when the ring is full.
    pub fn write(&mut self, data: usize) -> (r: bool)
        requires
            old(self).wf(),
            N > 0,
        ensures
            final(self).wf(),
            r == !old(self).full,
            r == (old(self)@.len() < N),
            r ==> final(self)@ == old(self)@.push(data),
            final(self)@ == push_bounded(old(self)@, N as nat, data),
            r ==> final(self).data@ == old(self).data@.update(old(self).head as int, data),
            r ==> final(self).head == (old(self).head + 1) % (N as int),
            r ==> final(self).tail == old(self).tail,
            r ==> final(self).full == (final(self).head == old(self).tail),
            !r ==> *final(self) == *old(self),
    {
        if self.full {
            return false;
        }
        let ghost old_self = *self;
        let h = self.head;
        self.data.set(h, data);
        self.head = (self.head + 1) % N;
        if self.head == self.tail {
            self.full = true;
        }
        proof {
            lemma_mod_once(h + 1, N as int);
            let n = N as int;
            let len = old_self.spec_len();
            assert(len < n);
            assert((old_self.tail + len) % n == h) by {
                lemma_mod_once(old_self.tail + len, n);
            }
            assert(self.spec_len() == len + 1);
            assert forall|i: int| 0 <= i < len implies #[trigger] self@[i] == old_self@[i] by {
                lemma_mod_once(old_self.tail + i, n);
            }
            assert(self@ =~= old_self@.push(data));
        }
        true
    }

    /// Takes the oldest value out of the ring, or `None` when it is empty.
    pub fn read(&mut self) -> (r: Option<usize>)
        requires
            old(self).wf(),
        ensures
            final(self).wf(),
            r is None <==> old(self)@.len() == 0,
            (final(self)@, r) == pop_front(old(self)@),
            r is None ==> *final(self) == *old(self),
            r matches Some(x) ==> {
                &&& x == old(self)@[0]
                &&& final(self)@ == old(self)@.drop_first()
                &&& final(self).data == old(self).data
                &&& final(self).head == old(self).head
                &&& final(self).tail == (old(self).tail + 1) % (N as int)
                &&& !final(self).full
            },
    {
        if self.is_empty() {
            return None;
        }
        let ghost old_self = *self;
        let data: usize = self.data[self.tail];
        self.tail = (self.tail + 1) % N;
        self.full = false;
        proof {
            let n = N as int;
            let t = old_self.tail as int;
            lemma_mod_once(t + 1, n);
            let len = old_self.spec_len();
            assert(len >= 1);
            assert(t % n == t) by { lemma_mod_once(t, n); }
            assert(self.spec_len() == len - 1);
            assert forall|i: int| 0 <= i < len - 1 implies
                #[trigger] self@[i] == old_self@[i + 1] by {
                lemma_mod_once(self.tail + i, n);
                lemma_mod_once(t + i + 1, n);
            }
            assert(self@ =~= old_self@.drop_first());
        }
        Some(data)
    }

    /// Number of stored values: `N` when full, otherwise the distance from
    /// `tail` forward to `head` around the ring.
    pub fn len(&self) -> (r: usize)
        requires
            !self.full && self.head < self.tail ==> self.head + N <= usize::MAX
                && self.tail <= self.head + N,
        ensures
            r == self.spec_len(),
            self.wf() ==> r == self@.len(),
    {
        if self.full {
            N
        } else if self.head >= self.tail {
            self.head - self.tail
        } else {
            self.head + N - self.tail
        }
    }

    /// Whether the ring holds no value.
    pub fn is_empty(&self) -> (r: bool)
        ensures
            r == (!self.full && self.head == self.tail),
            self.wf() ==> r == (self@.len() == 0),
    {
        !self.full && self.head == self.tail
    }
}

} // verus!
