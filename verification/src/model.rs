//! The sequence model shared by the ring buffers, and the laws that hold of
//! any run of operations on a bounded FIFO queue.

use vstd::prelude::*;

verus! {

/// Free room left in a queue holding `s` with capacity `cap`.
pub open spec fn room<T>(s: Seq<T>, cap: nat) -> nat {
    if s.len() <= cap {
        (cap - s.len()) as nat
    } else {
        0
    }
}

/// `s` after offering the items of `xs` one by one: the items that fit are
/// appended, the rest are dropped.
pub open spec fn fill<T>(s: Seq<T>, cap: nat, xs: Seq<T>) -> Seq<T> {
    if xs.len() <= room(s, cap) {
        s + xs
    } else {
        s + xs.take(room(s, cap) as int)
    }
}

/// `s` after offering one item.
pub open spec fn push_bounded<T>(s: Seq<T>, cap: nat, x: T) -> Seq<T> {
    if s.len() < cap {
        s.push(x)
    } else {
        s
    }
}

/// `s` after taking its oldest item, and that item; `s` and `None` when
/// `s` is empty.
pub open spec fn pop_front<T>(s: Seq<T>) -> (Seq<T>, Option<T>) {
    if s.len() > 0 {
        (s.drop_first(), Some(s[0]))
    } else {
        (s, None)
    }
}

/// Offering one more item extends a fill by one bounded push.
pub proof fn lemma_fill_push<T>(s: Seq<T>, cap: nat, xs: Seq<T>, x: T)
    requires
        s.len() <= cap,
    ensures
        fill(s, cap, xs.push(x)) == push_bounded(fill(s, cap, xs), cap, x),
{
    let r = room(s, cap) as int;
    if xs.len() < r {
        assert(fill(s, cap, xs.push(x)) =~= (s + xs).push(x));
    } else {
        assert(xs.push(x).take(r) =~= xs.take(r));
        assert(fill(s, cap, xs).len() == cap);
    }
}

/// Offering `a` and then `b` is the same as offering `a + b`: once the queue
/// is full, everything after is dropped.
pub proof fn lemma_fill_concat<T>(s: Seq<T>, cap: nat, a: Seq<T>, b: Seq<T>)
    requires
        s.len() <= cap,
    ensures
        fill(fill(s, cap, a), cap, b) == fill(s, cap, a + b),
{
    let r = room(s, cap) as int;
    let t = fill(s, cap, a);
    if a.len() <= r {
        assert(t =~= s + a);
        if b.len() <= room(t, cap) {
            assert(t + b =~= s + (a + b));
        } else {
            assert((a + b).take(r) =~= a + b.take(room(t, cap) as int));
            assert(t + b.take(room(t, cap) as int) =~= s + (a + b).take(r));
        }
    } else {
        assert(room(t, cap) == 0);
        assert(b.take(0) =~= Seq::<T>::empty());
        assert((a + b).take(r) =~= a.take(r));
        assert(t + b.take(0) =~= t);
    }
}

/// One operation on a bounded FIFO queue.
pub enum QueueOp<T> {
    Push(T),
    Pop,
}

/// The state of a queue after running `ops` from contents `s`: the final
/// contents, the items that pushes accepted, and the items that pops
/// returned, each in order.
pub open spec fn run<T>(s: Seq<T>, cap: nat, ops: Seq<QueueOp<T>>) -> (Seq<T>, Seq<T>, Seq<T>)
    decreases ops.len(),
{
    if ops.len() == 0 {
        (s, Seq::empty(), Seq::empty())
    } else {
        let last = ops.last();
        let (c, acc, out) = run(s, cap, ops.drop_last());
        match last {
            QueueOp::Push(x) => {
                let accepted = if c.len() < cap {
                    acc.push(x)
                } else {
                    acc
                };
                (push_bounded(c, cap, x), accepted, out)
            },
            QueueOp::Pop => {
                let (rest, front) = pop_front(c);
                let returned = match front {
                    Some(y) => out.push(y),
                    None => out,
                };
                (rest, acc, returned)
            },
        }
    }
}

/// Every accepted item comes out exactly once, in the order it went in:
/// what was stored plus what was accepted equals what was returned plus
/// what is still stored. So the length is the stored count plus the
/// accepted pushes minus the returned pops, and never exceeds capacity.
pub proof fn lemma_fifo<T>(s: Seq<T>, cap: nat, ops: Seq<QueueOp<T>>)
    requires
        s.len() <= cap,
    ensures
        s + run(s, cap, ops).1 == run(s, cap, ops).2 + run(s, cap, ops).0,
        run(s, cap, ops).0.len() <= cap,
        run(s, cap, ops).2.len() <= s.len() + run(s, cap, ops).1.len(),
        run(s, cap, ops).0.len() == s.len() + run(s, cap, ops).1.len() - run(s, cap, ops).2.len(),
    decreases ops.len(),
{
    if ops.len() > 0 {
        lemma_fifo(s, cap, ops.drop_last());
        let (c, acc, out) = run(s, cap, ops.drop_last());
        match ops.last() {
            QueueOp::Push(x) => {
                if c.len() < cap {
                    assert(s + acc.push(x) =~= (s + acc).push(x));
                    assert(out + c.push(x) =~= (out + c).push(x));
                }
            },
            QueueOp::Pop => {
                if c.len() > 0 {
                    assert(out.push(c[0]) + c.drop_first() =~= out + c);
                }
            },
        }
    }
}

/// The queue law at one point of a history of calls: the items that pushes
/// accepted so far are the items that pops returned so far, followed by the
/// items still stored, and at most `cap` items are stored.
pub open spec fn fifo_history<T>(accepted: Seq<T>, returned: Seq<T>, contents: Seq<T>, cap: nat) -> bool {
    &&& accepted == returned + contents
    &&& contents.len() <= cap
}

/// What the law says of the counts: the returned items are the first ones
/// accepted, and the stored count is accepted minus returned, at most `cap`.
pub proof fn lemma_history_facts<T>(accepted: Seq<T>, returned: Seq<T>, contents: Seq<T>, cap: nat)
    requires
        fifo_history(accepted, returned, contents, cap),
    ensures
        returned.len() <= accepted.len(),
        returned == accepted.take(returned.len() as int),
        contents == accepted.skip(returned.len() as int),
        contents.len() == accepted.len() - returned.len(),
        accepted.len() - returned.len() <= cap,
{
    assert(returned =~= accepted.take(returned.len() as int));
    assert(contents =~= accepted.skip(returned.len() as int));
}

/// A history starts with nothing accepted, returned or stored.
pub proof fn lemma_history_start<T>(cap: nat)
    ensures
        fifo_history(Seq::<T>::empty(), Seq::<T>::empty(), Seq::<T>::empty(), cap),
{
    assert(Seq::<T>::empty() + Seq::<T>::empty() =~= Seq::<T>::empty());
}

/// A push keeps the law: the contracts of `push` and `write` give `taken`
/// (the call succeeded) and `after` (the new contents). The item joins the
/// accepted ones exactly when it was taken, and it is taken exactly when
/// fewer than `cap` accepted items have not been returned.
pub proof fn lemma_history_push<T>(
    accepted: Seq<T>,
    returned: Seq<T>,
    before: Seq<T>,
    after: Seq<T>,
    cap: nat,
    x: T,
    taken: bool,
)
    requires
        fifo_history(accepted, returned, before, cap),
        taken == (before.len() < cap),
        after == push_bounded(before, cap, x),
    ensures
        fifo_history(if taken { accepted.push(x) } else { accepted }, returned, after, cap),
        taken <==> accepted.len() - returned.len() < cap,
{
    if taken {
        assert(returned + before.push(x) =~= (returned + before).push(x));
    }
}

/// A pop keeps the law: the contracts of `pop` and `read` give `(after, r)`
/// as `pop_front(before)`. The returned item, if any, is the oldest accepted
/// item not yet returned, and there is none exactly when every accepted item
/// has been returned.
pub proof fn lemma_history_pop<T>(
    accepted: Seq<T>,
    returned: Seq<T>,
    before: Seq<T>,
    after: Seq<T>,
    cap: nat,
    r: Option<T>,
)
    requires
        fifo_history(accepted, returned, before, cap),
        (after, r) == pop_front(before),
    ensures
        fifo_history(
            accepted,
            match r {
                Some(y) => returned.push(y),
                None => returned,
            },
            after,
            cap,
        ),
        r is None <==> accepted.len() == returned.len(),
        r matches Some(y) ==> y == accepted[returned.len() as int],
{
    if before.len() > 0 {
        assert(returned.push(before[0]) + before.drop_first() =~= returned + before);
    }
}

/// Running any sequence of operations keeps the law, with the items the run
/// accepted and returned appended to those of the history so far.
pub proof fn lemma_history_run<T>(
    accepted: Seq<T>,
    returned: Seq<T>,
    contents: Seq<T>,
    cap: nat,
    ops: Seq<QueueOp<T>>,
)
    requires
        fifo_history(accepted, returned, contents, cap),
    ensures
        fifo_history(
            accepted + run(contents, cap, ops).1,
            returned + run(contents, cap, ops).2,
            run(contents, cap, ops).0,
            cap,
        ),
{
    lemma_fifo(contents, cap, ops);
    let (c, acc, out) = run(contents, cap, ops);
    assert(accepted + acc =~= returned + (contents + acc));
    assert(returned + (out + c) =~= (returned + out) + c);
}

} // verus!
