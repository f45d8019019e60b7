//! Bounded first-in first-out queue of capacity `N`.
use vstd::prelude::*;
use std::collections::VecDeque;

verus! {

/// A queue that holds at most `N` values.
pub struct RingBuffer<T, const N: usize> {
    items: VecDeque<T>,
}

impl<T, const N: usize> View for RingBuffer<T, N> {
    type V = Seq<T>;

    closed spec fn view(&self) -> Seq<T> {
        self.items@
    }
}

impl<T, const N: usize> RingBuffer<T, N> {
    #[verifier::type_invariant]
    spec fn within_capacity(&self) -> bool {
        self.items@.len() <= N
    }

    /// An empty queue; the capacity must be a power of two.
    pub fn new() -> (r: Self)
        requires
            crate::is_pow2(N as nat),
        ensures
            r@ == Seq::<T>::empty(),
    {
        Self { items: VecDeque::new() }
    }

    /// How many more values fit.
    pub fn available(&self) -> (n: usize)
        ensures
            n == N - self@.len(),
    {
        proof {
            use_type_invariant(self);
        }
        N - self.items.len()
    }

    /// Appends `value`, or hands it back when the queue is full.
    pub fn push(&mut self, value: T) -> (r: Result<(), T>)
        ensures
            old(self)@.len() >= N ==> r == Err::<(), T>(value) && final(self)@ == old(self)@,
            old(self)@.len() < N ==> r is Ok && final(self)@ == old(self)@.push(value),
    {
        proof {
            use_type_invariant(&*self);
        }
        if self.items.len() >= N {
            return Err(value);
        }
        let mut items = VecDeque::new();
        std::mem::swap(&mut items, &mut self.items);
        items.push_back(value);
        self.items = items;
        Ok(())
    }

    /// Removes and returns the oldest value.
    pub fn pop(&mut self) -> (r: Option<T>)
        ensures
            old(self)@.len() == 0 ==> r is None && final(self)@ == old(self)@,
            old(self)@.len() > 0 ==> r == Some(old(self)@[0]) && final(self)@ == old(self)@.drop_first(),
    {
        proof {
            use_type_invariant(&*self);
        }
        let mut items = VecDeque::new();
        std::mem::swap(&mut items, &mut self.items);
        let r = items.pop_front();
        self.items = items;
        r
    }
}

/// Items leave in the order they came: after a ring holding `held` takes `x`, popping
/// `held.len()` items yields `held` in order and leaves exactly `x`.
pub proof fn lemma_ring_fifo<T>(held: Seq<T>, x: T)
    ensures
        held.push(x).take(held.len() as int) == held,
        held.push(x).skip(held.len() as int) == seq![x],
{
    assert(held.push(x).take(held.len() as int) =~= held);
    assert(held.push(x).skip(held.len() as int) =~= seq![x]);
}

/// The queue after one call, as `push` and `pop` state it: `Some(v)` pushes `v`, taken only
/// when fewer than `n` items are queued; `None` pops, taken only when an item is queued.
pub open spec fn ring_step<T>(s: Seq<T>, op: Option<T>, n: nat) -> Seq<T> {
    match op {
        Some(v) => if s.len() < n {
            s.push(v)
        } else {
            s
        },
        None => if s.len() > 0 {
            s.drop_first()
        } else {
            s
        },
    }
}

/// The queue after the calls `ops`, from `s`.
pub open spec fn ring_after<T>(s: Seq<T>, ops: Seq<Option<T>>, n: nat) -> Seq<T>
    decreases ops.len(),
{
    if ops.len() == 0 {
        s
    } else {
        ring_step(ring_after(s, ops.drop_last(), n), ops.last(), n)
    }
}

/// How many of the calls `ops`, from `s`, were pushes that succeeded (`want_push`) or pops
/// that returned an item (`!want_push`).
pub open spec fn ring_successes<T>(s: Seq<T>, ops: Seq<Option<T>>, n: nat, want_push: bool) -> nat
    decreases ops.len(),
{
    if ops.len() == 0 {
        0
    } else {
        let before = ring_after(s, ops.drop_last(), n);
        let hit = match ops.last() {
            Some(_) => want_push && before.len() < n,
            None => !want_push && before.len() > 0,
        };
        ring_successes(s, ops.drop_last(), n, want_push) + if hit {
            1nat
        } else {
            0nat
        }
    }
}

/// From an empty ring of `n` cells, after any calls, the queue holds as many items as pushes
/// succeeded less pops that returned one, never more than `n`: so `available()` is `n` less
/// that difference, a push fails exactly when it is zero, and a pop finds nothing exactly
/// when it is `n`.
pub proof fn lemma_ring_count<T>(ops: Seq<Option<T>>, n: nat)
    ensures
        ring_after(Seq::<T>::empty(), ops, n).len() == ring_successes(Seq::<T>::empty(), ops, n, true)
            - ring_successes(Seq::<T>::empty(), ops, n, false),
        ring_after(Seq::<T>::empty(), ops, n).len() <= n,
    decreases ops.len(),
{
    if ops.len() > 0 {
        lemma_ring_count(ops.drop_last(), n);
    }
}

} // verus!
