//! A fixed-size byte queue that wraps around its storage.
use vstd::prelude::*;

use crate::broker::error::{BrokerError, BrokerResult};

verus! {

/// The number of bytes the queue holds when full.
pub const RING_CAPACITY: usize = 1048576;

/// The storage slot of the `i`-th queued byte when the oldest sits at `tail`.
pub open spec fn slot(tail: int, i: int) -> int {
    (tail + i) % (RING_CAPACITY as int)
}

/// A byte queue of `RING_CAPACITY` bytes.
pub struct RingBuffer {
    buffer: Vec<u8>,
    tail: usize,
    len: usize,
}

impl View for RingBuffer {
    type V = Seq<u8>;

    /// The queued bytes, oldest first.
    closed spec fn view(&self) -> Seq<u8> {
        Seq::new(self.len as nat, |i: int| self.buffer@[slot(self.tail as int, i)])
    }
}

impl RingBuffer {
    /// The storage has its full size and the queue fits in it.
    pub closed spec fn wf(&self) -> bool {
        &&& self.buffer@.len() == RING_CAPACITY
        &&& self.tail < RING_CAPACITY
        &&& self.len <= RING_CAPACITY
    }

    /// An empty queue.
    pub fn new() -> (r: Self)
        ensures
            r.wf(),
            r@ == Seq::<u8>::empty(),
    {
        let buffer = vec![0u8; RING_CAPACITY];
        let r = RingBuffer { buffer, tail: 0, len: 0 };
        assert(r@ =~= Seq::<u8>::empty());
        r
    }

    /// How many bytes the queue holds when full.
    pub fn capacity(&self) -> (r: usize)
        requires
            self.wf(),
        ensures
            r == RING_CAPACITY,
    {
        self.buffer.len()
    }

    /// How many more bytes fit.
    pub fn available_write(&self) -> (r: usize)
        requires
            self.wf(),
        ensures
            r == RING_CAPACITY - self@.len(),
    {
        RING_CAPACITY - self.len
    }

    /// How many bytes are queued.
    pub fn available_read(&self) -> (r: usize)
        ensures
            r == self@.len(),
    {
        self.len
    }

    /// Queues all of `data`, or nothing when it does not fit.
    pub fn try_write(&mut self, data: &[u8]) -> (r: BrokerResult<usize>)
        requires
            old(self).wf(),
        ensures
            final(self).wf(),
            data@.len() == 0 ==> r == Ok::<usize, BrokerError>(0) && final(self)@ == old(self)@,
            data@.len() > 0 && data@.len() > RING_CAPACITY - old(self)@.len() ==> (r matches Err(
                BrokerError::BufferFull,
            )) && final(self)@ == old(self)@,
            data@.len() > 0 && data@.len() <= RING_CAPACITY - old(self)@.len() ==> r == Ok::<
                usize,
                BrokerError,
            >(data@.len() as usize) && final(self)@ == old(self)@ + data@,
    {
        let n = data.len();
        if n == 0 {
            return Ok(0);
        }
        if n > RING_CAPACITY - self.len {
            return Err(BrokerError::BufferFull);
        }
        let ghost old_view = self@;
        let mut buffer = Vec::new();
        std::mem::swap(&mut buffer, &mut self.buffer);
        let tail = self.tail;
        let len = self.len;
        let mut pos = tail + len;
        if pos >= RING_CAPACITY {
            pos = pos - RING_CAPACITY;
        }
        let ghost buf0 = buffer@;
        let mut i: usize = 0;
        while i < n
            invariant
                n == data@.len(),
                buffer@.len() == RING_CAPACITY,
                tail < RING_CAPACITY,
                len + n <= RING_CAPACITY,
                i <= n,
                buf0.len() == RING_CAPACITY,
                pos == slot(tail as int, len + i),
                forall|j: int| 0 <= j < len ==> #[trigger] buffer@[slot(tail as int, j)] == buf0[slot(tail as int, j)],
                forall|k: int| len <= k < len + i ==> #[trigger] buffer@[slot(tail as int, k)] == data@[k - len],
            decreases n - i,
        {
            proof {
                assert forall|k: int| 0 <= k < len + i implies #[trigger] slot(tail as int, k) != pos by {}
            }
            buffer.set(pos, data[i]);
            pos = pos + 1;
            if pos == RING_CAPACITY {
                pos = 0;
            }
            i = i + 1;
        }
        self.buffer = buffer;
        self.len = len + n;
        proof {
            assert forall|j: int| 0 <= j < self@.len() implies self@[j] == (old_view + data@)[j] by {
                if j >= len {
                    assert(buffer@[slot(tail as int, j)] == data@[j - len]);
                }
            }
            assert(self@ =~= old_view + data@);
        }
        Ok(n)
    }

    /// Moves the oldest queued bytes into the front of `dest`, as many as fit, and returns
    /// how many it moved.
    pub fn try_read(&mut self, dest: &mut Vec<u8>) -> (r: BrokerResult<usize>)
        requires
            old(self).wf(),
        ensures
            final(self).wf(),
            ({
                let k = if old(dest)@.len() < old(self)@.len() {
                    old(dest)@.len()
                } else {
                    old(self)@.len()
                };
                &&& r == Ok::<usize, BrokerError>(k as usize)
                &&& final(self)@ == old(self)@.skip(k as int)
                &&& final(dest)@ == old(self)@.take(k as int) + old(dest)@.skip(k as int)
            }),
    {
        let ghost old_view = self@;
        let ghost d0 = dest@;
        let want = dest.len();
        if want == 0 {
            assert(old_view.skip(0) =~= old_view);
            assert(old_view.take(0) + d0.skip(0) =~= d0);
            return Ok(0);
        }
        if self.len == 0 {
            assert(old_view.skip(0) =~= old_view);
            assert(old_view.take(0) + d0.skip(0) =~= d0);
            return Ok(0);
        }
        let actual = if want < self.len { want } else { self.len };
        let mut pos = self.tail;
        let mut i: usize = 0;
        while i < actual
            invariant
                self.buffer@.len() == RING_CAPACITY,
                self.tail < RING_CAPACITY,
                self.len <= RING_CAPACITY,
                actual <= self.len,
                actual <= d0.len(),
                old_view == self@,
                dest@.len() == d0.len(),
                i <= actual,
                pos == slot(self.tail as int, i as int),
                forall|j: int| 0 <= j < i ==> #[trigger] dest@[j] == old_view[j],
                forall|j: int| i <= j < d0.len() ==> #[trigger] dest@[j] == d0[j],
            decreases actual - i,
        {
            dest.set(i, self.buffer[pos]);
            pos = pos + 1;
            if pos == RING_CAPACITY {
                pos = 0;
            }
            i = i + 1;
        }
        let new_tail = pos;
        self.tail = new_tail;
        self.len = self.len - actual;
        proof {
            assert forall|j: int| 0 <= j < self@.len() implies self@[j] == old_view.skip(
                actual as int,
            )[j] by {
                assert(slot(new_tail as int, j) == slot(self.tail as int, j));
            }
            assert(self@ =~= old_view.skip(actual as int));
            assert(dest@ =~= old_view.take(actual as int) + d0.skip(actual as int));
        }
        Ok(actual)
    }

    /// Hands the queued bytes, oldest first and in at most two contiguous runs of the
    /// storage, to `consume`, which returns how many of the bytes it was shown it took; stops
    /// at the first run it did not take whole. The bytes taken leave the queue. An error from
    /// `consume` is returned as it is, and then nothing leaves the queue.
    ///
    /// A non-empty queue shows `consume` a first run that starts with the oldest byte. When
    /// fewer bytes than were queued leave, `consume` was shown a run that ends where the taken
    /// bytes end plus what it left, and it took only part of that run. An error is what
    /// `consume` returned for a run of the queued bytes.
    pub fn drain_into<F>(&mut self, mut consume: F) -> (r: BrokerResult<usize>)
        where
            F: FnMut(&[u8]) -> BrokerResult<usize>,
        requires
            old(self).wf(),
            forall|s: &[u8]| call_requires(consume, (s,)),
            forall|s: &[u8], x: BrokerResult<usize>|
                call_ensures(consume, (s,), x) ==> (x matches Ok(n) ==> n <= s@.len()),
        ensures
            final(self).wf(),
            old(self)@.len() == 0 ==> r == Ok::<usize, BrokerError>(0) && final(self)@ == old(self)@,
            old(self)@.len() > 0 ==> exists|s: &[u8], x: BrokerResult<usize>|
                #[trigger] call_ensures(consume, (s,), x) && 0 < s@.len() && s@ == old(self)@.take(
                    s@.len() as int,
                ),
            r matches Ok(total) ==> total <= old(self)@.len() && final(self)@ == old(self)@.skip(total as int),
            r matches Ok(total) ==> (total < old(self)@.len() ==> exists|s: &[u8], n: usize|
                #[trigger] call_ensures(consume, (s,), Ok::<usize, BrokerError>(n)) && n < s@.len()
                    && n <= total && run_at(old(self)@, s@, total - n)),
            r is Err ==> final(self)@ == old(self)@ && exists|s: &[u8], a: int|
                #![trigger call_ensures(consume, (s,), r), run_at(old(self)@, s@, a)]
                call_ensures(consume, (s,), r) && run_at(old(self)@, s@, a),
    {
        broadcast use vstd::function::group_function_axioms;
        let ghost old_view = self@;
        if self.len == 0 {
            assert(old_view.skip(0) =~= old_view);
            return Ok(0);
        }
        let len = self.len;
        let mut total: usize = 0;
        let mut pos: usize = self.tail;
        let ghost mut started = false;
        let ghost c0 = consume;
        let mut failure: Option<BrokerError> = None;
        loop
            invariant_except_break
                total < len,
                failure is None,
            invariant
                self.wf(),
                consume == c0,
                self@ == old_view,
                len == self.len,
                len == old_view.len(),
                len > 0,
                total <= len,
                pos < RING_CAPACITY,
                pos == slot(self.tail as int, total as int),
                !started ==> total == 0,
                started ==> exists|s: &[u8], x: BrokerResult<usize>|
                    #[trigger] call_ensures(c0, (s,), x) && 0 < s@.len() && s@ == old_view.take(
                        s@.len() as int,
                    ),
                forall|s: &[u8]| call_requires(consume, (s,)),
                forall|s: &[u8], x: BrokerResult<usize>|
                    call_ensures(consume, (s,), x) ==> (x matches Ok(n) ==> n <= s@.len()),
            ensures
                total <= len,
                pos == slot(self.tail as int, total as int),
                pos < RING_CAPACITY,
                self@ == old_view,
                self.wf(),
                consume == c0,
                len == self.len,
                started,
                exists|s: &[u8], x: BrokerResult<usize>|
                    #[trigger] call_ensures(c0, (s,), x) && 0 < s@.len() && s@ == old_view.take(
                        s@.len() as int,
                    ),
                failure is None ==> (total < len ==> exists|s: &[u8], n: usize|
                    #[trigger] call_ensures(c0, (s,), Ok::<usize, BrokerError>(n)) && n < s@.len()
                        && n <= total && run_at(old_view, s@, total - n)),
                failure matches Some(e) ==> exists|s: &[u8], a: int|
                    #![trigger call_ensures(c0, (s,), Err::<usize, BrokerError>(e)), run_at(old_view, s@, a)]
                    call_ensures(c0, (s,), Err::<usize, BrokerError>(e)) && run_at(old_view, s@, a),
            decreases len - total,
        {
            let room = RING_CAPACITY - pos;
            let left = len - total;
            let chunk_len = if left < room { left } else { room };
            let chunk = vstd::slice::slice_subrange(self.buffer.as_slice(), pos, pos + chunk_len);
            proof {
                assert forall|j: int| 0 <= j < chunk_len implies #[trigger] chunk@[j] == old_view[total + j] by {
                    lemma_slot_run(self.tail as int, total as int, j, pos as int);
                }
                assert(chunk@ =~= old_view.subrange(total as int, total + chunk_len));
                assert(run_at(old_view, chunk@, total as int));
                if !started {
                    assert(old_view.take(chunk_len as int) =~= old_view.subrange(0, chunk_len as int));
                }
            }
            let ghost before_err = total;
            let res = consume(chunk);
            proof {
                if !started {
                    assert(call_ensures(c0, (chunk,), res) && 0 < chunk@.len() && chunk@
                        == old_view.take(chunk@.len() as int));
                }
                started = true;
            }
            let consumed = match res {
                Ok(n) => n,
                Err(e) => {
                    assert(call_ensures(c0, (chunk,), Err::<usize, BrokerError>(e)));
                    assert(run_at(old_view, chunk@, before_err as int));
                    failure = Some(e);
                    break;
                },
            };
            let ghost before = total;
            total = total + consumed;
            pos = pos + consumed;
            if pos == RING_CAPACITY {
                pos = 0;
            }
            if consumed < chunk_len || total == len {
                proof {
                    if consumed < chunk_len {
                        assert(call_ensures(c0, (chunk,), Ok::<usize, BrokerError>(consumed)));
                        assert(total - consumed == before);
                    }
                }
                break;
            }
        }
        if let Some(e) = failure {
            return Err(e);
        }
        let ghost tail0 = self.tail;
        self.tail = pos;
        self.len = len - total;
        proof {
            assert forall|j: int| 0 <= j < self@.len() implies self@[j] == old_view.skip(total as int)[j] by {
                assert(slot(pos as int, j) == slot(tail0 as int, total + j));
            }
            assert(self@ =~= old_view.skip(total as int));
        }
        Ok(total)
    }
}

/// `s` is the run of `q` that starts at position `a`.
pub open spec fn run_at(q: Seq<u8>, s: Seq<u8>, a: int) -> bool {
    0 <= a && a + s.len() <= q.len() && s == q.subrange(a, a + s.len())
}

/// Consecutive queued bytes that do not reach the end of the storage lie in consecutive
/// slots.
proof fn lemma_slot_run(tail: int, total: int, j: int, pos: int)
    requires
        0 <= tail,
        0 <= total,
        0 <= j,
        pos == slot(tail, total),
        pos + j < RING_CAPACITY,
    ensures
        slot(tail, total + j) == pos + j,
{
    vstd::arithmetic::div_mod::lemma_add_mod_noop(tail + total, j, RING_CAPACITY as int);
    vstd::arithmetic::div_mod::lemma_small_mod(j as nat, RING_CAPACITY as nat);
    vstd::arithmetic::div_mod::lemma_small_mod((pos + j) as nat, RING_CAPACITY as nat);
}

/// Bytes leave in the order they came: after a buffer holding `held` takes `first` and then
/// `second`, the next `held.len() + first.len()` bytes read are `held` then `first`, and
/// `second` is what stays queued.
pub proof fn lemma_bytes_fifo(held: Seq<u8>, first: Seq<u8>, second: Seq<u8>)
    ensures
        (held + first + second).take((held.len() + first.len()) as int) == held + first,
        (held + first + second).skip((held.len() + first.len()) as int) == second,
{
    assert((held + first + second).take((held.len() + first.len()) as int) =~= held + first);
    assert((held + first + second).skip((held.len() + first.len()) as int) =~= second);
}

} // verus!
