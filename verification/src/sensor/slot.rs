//! One cell of the ring: the sequence number of what it holds, and the value.
use vstd::prelude::*;

verus! {

/// A sequence counter kept on a cache line of its own.
#[derive(Debug)]
pub struct CachePaddedAtomicU64 {
    pub value: u64,
}

/// A ring cell.
pub struct Slot<T> {
    pub sequence: CachePaddedAtomicU64,
    pub data: Option<T>,
}

impl<T> Slot<T> {
    /// An empty cell marked with sequence `seq`.
    pub fn new(seq: u64) -> (r: Self)
        ensures
            r.sequence.value == seq,
            r.data is None,
    {
        Slot { sequence: CachePaddedAtomicU64 { value: seq }, data: None }
    }

    /// Stores `value`.
    pub fn write(&mut self, value: T)
        ensures
            final(self).sequence.value == old(self).sequence.value,
            final(self).data == Some(value),
    {
        self.data = Some(value);
    }

    /// Takes the stored value out.
    pub fn read(&mut self) -> (r: Option<T>)
        ensures
            r == old(self).data,
            final(self).data is None,
            final(self).sequence.value == old(self).sequence.value,
    {
        self.data.take()
    }
}

} // verus!
