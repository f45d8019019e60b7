//! A ring of `N` sequence-numbered cells. A write claims the next sequence number and stores
//! its frame in that number's cell; when `N` frames are written and not yet read the ring is
//! full and a write is refused, so no unread frame is ever overwritten. A reader takes cells
//! in sequence order for as long as each holds exactly the sequence number it expects, which
//! is every written frame it has not taken yet.
use vstd::prelude::*;

use crate::sensor::error::{FusionBufferError, FusionResult};
use crate::sensor::slot::Slot;

verus! {

/// The cell of sequence number `seq` in a ring of `n` cells.
pub open spec fn cell_of(seq: u64, n: nat) -> int {
    (seq as int) % (n as int)
}

/// The `j`-th sequence number after the read cursor of `v` was in its cell, and its frame is
/// at `base + j` in `e`.
pub open spec fn taken<T>(v: RingView<T>, e: Seq<T>, base: int, j: int) -> bool {
    let s = (v.read_cursor + j + 1) as u64;
    &&& v.cells[cell_of(s, v.cells.len())].0 == s
    &&& v.cells[cell_of(s, v.cells.len())].1 == Some(e[base + j])
}

/// `k` frames were taken: the cursor moved by `k`, `dest` grew by the frames of the cells
/// of the `k` sequence numbers after the old read cursor, each of which held its number, and
/// when fewer than `max_count` were taken, the next cell did not hold its number.
pub open spec fn read_batch<T>(
    v: RingView<T>,
    d: Seq<T>,
    w: RingView<T>,
    e: Seq<T>,
    k: int,
    max_count: int,
) -> bool {
    &&& w.write_cursor == v.write_cursor
    &&& w.read_cursor == v.read_cursor + k
    &&& e.len() == d.len() + k
    &&& e.subrange(0, d.len() as int) == d
    &&& forall|j: int| 0 <= j < k ==> #[trigger] taken(v, e, d.len() as int, j)
    &&& k < max_count ==> v.cells[cell_of((v.read_cursor + k + 1) as u64, v.cells.len())].0
        != v.read_cursor + k + 1
}

/// A ring of `n` cells is consistent: at most `n` frames are unread, no cell carries a
/// sequence number beyond the write cursor, every sequence number written and not yet read
/// sits in its own cell with its frame.
pub open spec fn ring_ok<T>(v: RingView<T>, n: nat) -> bool {
    &&& v.cells.len() == n
    &&& n > 0
    &&& v.read_cursor <= v.write_cursor
    &&& v.write_cursor - v.read_cursor <= n
    &&& forall|i: int| 0 <= i < n ==> #[trigger] v.cells[i].0 <= v.write_cursor
    &&& forall|i: int| 0 <= i < n && #[trigger] v.cells[i].0 > v.read_cursor ==> v.cells[i].1 is Some
    &&& forall|s: u64| v.read_cursor < s <= v.write_cursor ==> #[trigger] v.cells[cell_of(s, n)].0 == s
}

/// The number of frames written and not yet read.
pub open spec fn unread<T>(v: RingView<T>) -> int {
    v.write_cursor - v.read_cursor
}

/// Two sequence numbers less than `n` apart lie in different cells.
proof fn lemma_cells_apart(a: u64, b: u64, n: nat)
    requires
        0 < n,
        a < b,
        b - a < n,
    ensures
        cell_of(a, n) != cell_of(b, n),
{
    let ai = a as int;
    let bi = b as int;
    let ni = n as int;
    vstd::arithmetic::div_mod::lemma_fundamental_div_mod(ai, ni);
    vstd::arithmetic::div_mod::lemma_fundamental_div_mod(bi, ni);
    if ai % ni == bi % ni {
        assert(bi - ai == ni * (bi / ni) - ni * (ai / ni));
        vstd::arithmetic::mul::lemma_mul_is_distributive_sub(ni, bi / ni, ai / ni);
        if bi / ni - ai / ni <= 0 {
            vstd::arithmetic::mul::lemma_mul_inequality(bi / ni - ai / ni, 0, ni);
        } else {
            vstd::arithmetic::mul::lemma_mul_inequality(1, bi / ni - ai / ni, ni);
        }
    }
}

/// A write into a ring that is not full leaves every unread frame where it was: the cell
/// written is none of theirs.
pub proof fn lemma_write_keeps_unread<T>(v: RingView<T>, value: T, s: u64)
    requires
        ring_ok(v, v.cells.len()),
        unread(v) < v.cells.len(),
        v.write_cursor < u64::MAX,
        v.read_cursor < s <= v.write_cursor,
    ensures
        after_write(v, value).cells[cell_of(s, v.cells.len())] == v.cells[cell_of(s, v.cells.len())],
        ring_ok(after_write(v, value), v.cells.len()),
{
    lemma_after_write_ok(v, value);
    lemma_cells_apart(s, (v.write_cursor + 1) as u64, v.cells.len());
}

proof fn lemma_after_write_ok<T>(v: RingView<T>, value: T)
    requires
        ring_ok(v, v.cells.len()),
        unread(v) < v.cells.len(),
        v.write_cursor < u64::MAX,
    ensures
        ring_ok(after_write(v, value), v.cells.len()),
{
    let n = v.cells.len();
    let w = after_write(v, value);
    let s = (v.write_cursor + 1) as u64;
    let c = cell_of(s, n);
    assert(0 <= c < n) by {
        vstd::arithmetic::div_mod::lemma_mod_bound(s as int, n as int);
    }
    assert forall|t: u64| w.read_cursor < t <= w.write_cursor implies #[trigger] w.cells[cell_of(t, n)].0 == t by {
        assert(0 <= cell_of(t, n) < n) by {
            vstd::arithmetic::div_mod::lemma_mod_bound(t as int, n as int);
        }
        if t < s {
            lemma_cells_apart(t, s, n);
            assert(v.cells[cell_of(t, n)].0 == t);
        }
    }
    assert forall|i: int| 0 <= i < n && #[trigger] w.cells[i].0 > w.read_cursor implies w.cells[i].1 is Some by {
        if i != c {
            assert(w.cells[i] == v.cells[i]);
        }
    }
    assert forall|i: int| 0 <= i < n implies #[trigger] w.cells[i].0 <= w.write_cursor by {
        if i != c {
            assert(w.cells[i] == v.cells[i]);
        }
    }
}

/// The unread frames of a ring of `n` cells, oldest first.
pub open spec fn pending_frames<T>(v: RingView<T>, n: nat) -> Seq<T> {
    Seq::new(
        (v.write_cursor - v.read_cursor) as nat,
        |j: int| v.cells[cell_of((v.read_cursor + j + 1) as u64, n)].1->Some_0,
    )
}

/// A write into a ring that is not full adds its frame after the unread ones.
pub proof fn lemma_write_pending<T>(v: RingView<T>, value: T)
    requires
        ring_ok(v, v.cells.len()),
        unread(v) < v.cells.len(),
        v.write_cursor < u64::MAX,
    ensures
        pending_frames(after_write(v, value), v.cells.len()) == pending_frames(v, v.cells.len()).push(value),
{
    let n = v.cells.len();
    let w = after_write(v, value);
    let s = (v.write_cursor + 1) as u64;
    assert(0 <= cell_of(s, n) < n) by {
        vstd::arithmetic::div_mod::lemma_mod_bound(s as int, n as int);
    }
    assert forall|j: int| 0 <= j < unread(v) implies #[trigger] pending_frames(w, n)[j] == pending_frames(v, n)[j] by {
        let t = (v.read_cursor + j + 1) as u64;
        lemma_cells_apart(t, s, n);
    }
    assert(pending_frames(w, n) =~= pending_frames(v, n).push(value));
}

/// The ring after `value` is stored under the sequence number after the write cursor.
pub open spec fn after_write<T>(v: RingView<T>, value: T) -> RingView<T> {
    let s = (v.write_cursor + 1) as u64;
    RingView {
        write_cursor: s,
        read_cursor: v.read_cursor,
        cells: v.cells.update(cell_of(s, v.cells.len()), (s, Some(value))),
    }
}

/// A frame written to a ring whose every frame has been read is the next frame a read
/// takes: a batch read of one after the write takes exactly that frame.
pub proof fn lemma_write_then_read<T>(
    v: RingView<T>,
    value: T,
    d: Seq<T>,
    w: RingView<T>,
    e: Seq<T>,
    k: int,
)
    requires
        v.cells.len() > 0,
        v.read_cursor == v.write_cursor,
        v.write_cursor < u64::MAX,
        0 <= k <= 1,
        read_batch(after_write(v, value), d, w, e, k, 1),
    ensures
        k == 1,
        e == d.push(value),
        w.read_cursor == w.write_cursor,
{
    let a = after_write(v, value);
    let s = (v.write_cursor + 1) as u64;
    assert(a.cells[cell_of(s, a.cells.len())] == (s, Some(value)));
    if k == 0 {
        assert(a.cells[cell_of((a.read_cursor + 0 + 1) as u64, a.cells.len())].0 == a.read_cursor + 1);
    }
    assert(taken(a, e, d.len() as int, 0));
    assert(e =~= d.push(value)) by {
        assert(e.subrange(0, d.len() as int) == d);
        assert forall|i: int| 0 <= i < e.len() implies e[i] == d.push(value)[i] by {
            if i < d.len() {
                assert(e[i] == e.subrange(0, d.len() as int)[i]);
            }
        }
    }
}

/// A queue of frames in `N` cells.
pub struct MpmcRingBuffer<T, const N: usize> {
    slots: Vec<Slot<T>>,
    write_cursor: u64,
    read_cursor: u64,
}

/// The state of a ring: the two cursors, and each cell's sequence number and value.
pub struct RingView<T> {
    pub write_cursor: u64,
    pub read_cursor: u64,
    pub cells: Seq<(u64, Option<T>)>,
}

impl<T, const N: usize> View for MpmcRingBuffer<T, N> {
    type V = RingView<T>;

    closed spec fn view(&self) -> RingView<T> {
        RingView {
            write_cursor: self.write_cursor,
            read_cursor: self.read_cursor,
            cells: self.slots@.map_values(|s: Slot<T>| (s.sequence.value, s.data)),
        }
    }
}

impl<T, const N: usize> MpmcRingBuffer<T, N> {
    /// The ring has `N` cells and is consistent.
    pub open spec fn wf(&self) -> bool {
        ring_ok(self@, N as nat)
    }

    /// An empty ring of `N` cells; `N` must be a power of two.
    pub fn new() -> (r: Self)
        requires
            crate::is_pow2(N as nat),
        ensures
            r.wf(),
            r@.write_cursor == 0,
            r@.read_cursor == 0,
            forall|i: int| 0 <= i < N ==> #[trigger] r@.cells[i] == (0u64, None::<T>),
    {
        proof {
            lemma_pow2_positive(N as nat);
        }
        let mut slots: Vec<Slot<T>> = Vec::with_capacity(N);
        let mut i: usize = 0;
        while i < N
            invariant
                i <= N,
                slots@.len() == i,
                forall|j: int| 0 <= j < i ==> #[trigger] slots@[j].sequence.value == 0 && slots@[j].data is None,
            decreases N - i,
        {
            slots.push(Slot::new(0));
            i = i + 1;
        }
        MpmcRingBuffer { slots, write_cursor: 0, read_cursor: 0 }
    }

    /// Stores `value` under the next sequence number and returns that number; refuses with
    /// `BufferFull`, changing nothing, when `N` frames are unread.
    pub fn try_write(&mut self, value: T) -> (r: FusionResult<u64>)
        requires
            old(self).wf(),
            old(self)@.write_cursor < u64::MAX,
        ensures
            final(self).wf(),
            unread(old(self)@) >= N ==> (r matches Err(FusionBufferError::BufferFull)) && final(self)@
                == old(self)@,
            unread(old(self)@) < N ==> r == Ok::<u64, FusionBufferError>(
                (old(self)@.write_cursor + 1) as u64,
            ) && final(self)@ == after_write(old(self)@, value),
            unread(old(self)@) < N ==> pending_frames(final(self)@, N as nat) == pending_frames(
                old(self)@,
                N as nat,
            ).push(value),
    {
        if self.write_cursor - self.read_cursor >= N as u64 {
            return Err(FusionBufferError::BufferFull);
        }
        proof {
            lemma_after_write_ok(self@, value);
            lemma_write_pending(self@, value);
        }
        let next_seq = self.write_cursor + 1;
        let i = (next_seq % (N as u64)) as usize;
        self.write_cursor = next_seq;
        let mut slot = Slot::new(next_seq);
        slot.write(value);
        self.slots.set(i, slot);
        proof {
            assert(self@.cells =~= old(self)@.cells.update(cell_of(next_seq, N as nat), (next_seq, Some(value))));
        }
        Ok(next_seq)
    }

    /// Takes up to `max_count` frames in sequence order into `dest` and returns how many; it
    /// stops at the first cell that does not hold the sequence number it expects.
    pub fn try_read_batch(&mut self, dest: &mut Vec<T>, max_count: usize) -> (r: FusionResult<usize>)
        requires
            old(self).wf(),
            old(self)@.read_cursor as int + max_count <= u64::MAX,
        ensures
            final(self).wf(),
            r matches Ok(k) && k <= max_count && read_batch(old(self)@, old(dest)@, final(self)@, final(dest)@, k as int, max_count as int),
            r matches Ok(k) && k == if max_count < unread(old(self)@) {
                max_count as int
            } else {
                unread(old(self)@)
            },
            r matches Ok(k) && final(dest)@ == old(dest)@ + pending_frames(old(self)@, N as nat).take(
                k as int,
            ) && pending_frames(final(self)@, N as nat) == pending_frames(old(self)@, N as nat).skip(
                k as int,
            ),
    {
        let ghost v0 = self@;
        let ghost d0 = dest@;
        let mut count: usize = 0;
        while count < max_count
            invariant
                self.wf(),
                self@.write_cursor == v0.write_cursor,
                self@.cells.len() == v0.cells.len() == N,
                v0.read_cursor as int + max_count <= u64::MAX,
                count <= max_count,
                self@.read_cursor == v0.read_cursor + count,
                dest@.len() == d0.len() + count,
                dest@.subrange(0, d0.len() as int) == d0,
                forall|j: int| 0 <= j < count ==> #[trigger] taken(v0, dest@, d0.len() as int, j),
                forall|i: int| 0 <= i < N ==> #[trigger] self@.cells[i].0 == v0.cells[i].0,
                forall|i: int| 0 <= i < N ==> #[trigger] self@.cells[i].1 == v0.cells[i].1 || (
                    v0.read_cursor < v0.cells[i].0 <= v0.read_cursor + count),
            ensures
                count < max_count ==> v0.cells[cell_of((v0.read_cursor + count + 1) as u64, N as nat)].0
                    != v0.read_cursor + count + 1,
            decreases max_count - count,
        {
            let next_seq = self.read_cursor + 1;
            let idx = (next_seq % (N as u64)) as usize;
            if self.slots[idx].sequence.value != next_seq {
                proof {
                    assert(cell_of(next_seq, N as nat) == idx as int);
                    assert(self@.cells[idx as int].0 == v0.cells[idx as int].0);
                }
                break;
            }
            let ghost c = idx as int;
            let ghost before = self@;
            let ghost dbefore = dest@;
            assert(self@.cells[c].0 == next_seq);
            assert(self@.cells[c].1 == v0.cells[c].1);
            assert(self@.cells[c].1 is Some);
            let value = self.slots[idx].read();
            self.read_cursor = next_seq;
            let v = match value {
                Some(v) => v,
                None => {
                    proof {
                        assert(false);
                    }
                    return Ok(count);
                },
            };
            dest.push(v);
            proof {
                assert forall|i: int| 0 <= i < N implies #[trigger] self@.cells[i].0 == v0.cells[i].0 by {
                    if i != c {
                        assert(self@.cells[i] == before.cells[i]);
                    }
                }
                assert forall|i: int| 0 <= i < N implies #[trigger] self@.cells[i].1 == v0.cells[i].1 || (
                    v0.read_cursor < v0.cells[i].0 <= v0.read_cursor + count + 1) by {
                    if i != c {
                        assert(self@.cells[i] == before.cells[i]);
                    }
                }
                assert(dest@.subrange(0, d0.len() as int) =~= d0) by {
                    assert(dbefore.subrange(0, d0.len() as int) == d0);
                }
                assert(cell_of(next_seq, N as nat) == c);
                assert forall|i: int| 0 <= i < N && #[trigger] self@.cells[i].0 > self@.read_cursor implies self@.cells[i].1 is Some by {
                    assert(i != c);
                    assert(self@.cells[i] == before.cells[i]);
                }
                assert forall|i: int| 0 <= i < N implies #[trigger] self@.cells[i].0 <= self@.write_cursor by {
                    if i != c {
                        assert(self@.cells[i] == before.cells[i]);
                    }
                }
                assert(self@.read_cursor <= self@.write_cursor);
                assert forall|t: u64| self@.read_cursor < t <= self@.write_cursor implies #[trigger] self@.cells[cell_of(t, N as nat)].0 == t by {
                    assert(before.cells[cell_of(t, N as nat)].0 == t);
                    assert(0 <= cell_of(t, N as nat) < N) by {
                        vstd::arithmetic::div_mod::lemma_mod_bound(t as int, N as int);
                    }
                }
                assert forall|j: int| 0 <= j < count + 1 implies #[trigger] taken(v0, dest@, d0.len() as int, j) by {
                    if j < count {
                        assert(taken(v0, dbefore, d0.len() as int, j));
                        assert(dest@[d0.len() + j] == dbefore[d0.len() + j]);
                    }
                }
            }
            count = count + 1;
        }
        proof {
            let n = N as nat;
            let p0 = pending_frames(v0, n);
            assert(count <= unread(v0));
            assert forall|j: int| 0 <= j < count implies #[trigger] dest@[d0.len() + j] == p0[j] by {
                assert(taken(v0, dest@, d0.len() as int, j));
            }
            assert(dest@ =~= d0 + p0.take(count as int)) by {
                assert forall|i: int| 0 <= i < dest@.len() implies dest@[i] == (d0 + p0.take(count as int))[i] by {
                    if i < d0.len() {
                        assert(dest@[i] == dest@.subrange(0, d0.len() as int)[i]);
                    } else {
                        assert(dest@[d0.len() + (i - d0.len())] == p0[i - d0.len()]);
                    }
                }
            }
            assert forall|j: int| 0 <= j < unread(self@) implies #[trigger] pending_frames(self@, n)[j] == p0.skip(count as int)[j] by {
                let t = (self@.read_cursor + j + 1) as u64;
                let c = cell_of(t, n);
                assert(0 <= c < n) by {
                    vstd::arithmetic::div_mod::lemma_mod_bound(t as int, n as int);
                }
                assert(v0.cells[c].0 == t);
            }
            assert(pending_frames(self@, n) =~= p0.skip(count as int));
        }
        Ok(count)
    }

    /// The number of cells.
    pub fn capacity(&self) -> (r: usize)
        ensures
            r == N,
    {
        N
    }
}

proof fn lemma_pow2_positive(n: nat)
    requires
        crate::is_pow2(n),
    ensures
        n > 0,
    decreases n,
{
}

/// A call on the ring, as plain values: a write of a frame, or a batch read of at most so
/// many frames.
pub enum RingCall<T> {
    Write(T),
    Read(nat),
}

/// After `calls` on an empty ring of `n` cells, as `try_write` and `try_read_batch` state
/// them: the unread frames, the frames the reads returned in order, and the frames whose
/// writes were accepted in order.
pub open spec fn ring_history<T>(calls: Seq<RingCall<T>>, n: nat) -> (Seq<T>, Seq<T>, Seq<T>)
    decreases calls.len(),
{
    if calls.len() == 0 {
        (Seq::empty(), Seq::empty(), Seq::empty())
    } else {
        let (q, out, acc) = ring_history(calls.drop_last(), n);
        match calls.last() {
            RingCall::Write(v) => if q.len() < n {
                (q.push(v), out, acc.push(v))
            } else {
                (q, out, acc)
            },
            RingCall::Read(m) => {
                let k = if m < q.len() {
                    m as int
                } else {
                    q.len() as int
                };
                (q.skip(k), out + q.take(k), acc)
            },
        }
    }
}

/// Over any sequence of writes and batch reads, every accepted frame is read exactly once and
/// in the order written: what the reads returned, followed by what is still unread, is the
/// accepted frames; at most `n` are unread; and a write is refused only when `n` are.
pub proof fn lemma_ring_history<T>(calls: Seq<RingCall<T>>, n: nat)
    ensures
        ring_history(calls, n).1 + ring_history(calls, n).0 == ring_history(calls, n).2,
        ring_history(calls, n).0.len() <= n,
    decreases calls.len(),
{
    if calls.len() > 0 {
        lemma_ring_history(calls.drop_last(), n);
        let (q, out, acc) = ring_history(calls.drop_last(), n);
        match calls.last() {
            RingCall::Write(v) => {
                if q.len() < n {
                    assert(out + q.push(v) =~= (out + q).push(v));
                }
            },
            RingCall::Read(m) => {
                let k = if m < q.len() {
                    m as int
                } else {
                    q.len() as int
                };
                assert(out + q.take(k) + q.skip(k) =~= out + q);
            },
        }
    }
}

} // verus!
