//! The ingestion buffer and the pipeline that drains it block by block.
use vstd::prelude::*;

use bytes::BytesMut;

use crate::ingest::error::{IngestError, IngestResult};

verus! {

#[verifier::external_type_specification]
#[verifier::external_body]
pub struct ExBytesMut(BytesMut);

/// The bytes a `BytesMut` holds.
pub uninterp spec fn bytes_contents(b: BytesMut) -> Seq<u8>;

/// `BytesMut::with_capacity`: an empty buffer.
#[verifier::external_body]
fn bytes_with_capacity(capacity: usize) -> (r: BytesMut)
    ensures
        bytes_contents(r) == Seq::<u8>::empty(),
{
    BytesMut::with_capacity(capacity)
}

/// `BytesMut::len`: the number of bytes held.
#[verifier::external_body]
fn bytes_len(b: &BytesMut) -> (r: usize)
    ensures
        r == bytes_contents(*b).len(),
{
    b.len()
}

/// `BytesMut::extend_from_slice`: appends `data`.
#[verifier::external_body]
fn bytes_extend(b: &mut BytesMut, data: &[u8])
    requires
        bytes_contents(*old(b)).len() + data@.len() <= usize::MAX,
    ensures
        bytes_contents(*final(b)) == bytes_contents(*old(b)) + data@,
{
    b.extend_from_slice(data)
}

/// The size a fresh buffer reserves at most.
pub const INITIAL_RESERVE: usize = 65536;

/// The amount of buffered data at which the pipeline hands a block on.
pub const BLOCK_SIZE: usize = 4096;

/// A buffer that holds at most `max_capacity` bytes.
pub struct IngestBuffer {
    buf: BytesMut,
    max_capacity: usize,
}

impl IngestBuffer {
    /// The buffered bytes.
    pub closed spec fn contents(&self) -> Seq<u8> {
        bytes_contents(self.buf)
    }

    /// The most bytes the buffer holds.
    pub closed spec fn limit(&self) -> usize {
        self.max_capacity
    }

    /// The buffer holds no more than its limit.
    pub open spec fn wf(&self) -> bool {
        self.contents().len() <= self.limit()
    }

    /// An empty buffer holding at most `max_capacity` bytes.
    pub fn new(max_capacity: usize) -> (r: Self)
        ensures
            r.wf(),
            r.contents() == Seq::<u8>::empty(),
            r.limit() == max_capacity,
    {
        let reserve = if max_capacity < INITIAL_RESERVE {
            max_capacity
        } else {
            INITIAL_RESERVE
        };
        IngestBuffer { buf: bytes_with_capacity(reserve), max_capacity }
    }

    /// Appends `data` when it fits under the limit, else refuses it whole.
    pub fn extend(&mut self, data: &[u8]) -> (r: IngestResult<usize>)
        requires
            old(self).wf(),
        ensures
            final(self).wf(),
            final(self).limit() == old(self).limit(),
            old(self).contents().len() + data@.len() > old(self).limit() ==> (r matches Err(
                IngestError::BufferFull,
            )) && final(self).contents() == old(self).contents(),
            old(self).contents().len() + data@.len() <= old(self).limit() ==> r == Ok::<
                usize,
                IngestError,
            >(data@.len() as usize) && final(self).contents() == old(self).contents() + data@,
    {
        let len = bytes_len(&self.buf);
        if data.len() > self.max_capacity - len {
            return Err(IngestError::BufferFull);
        }
        bytes_extend(&mut self.buf, data);
        Ok(data.len())
    }

    /// Hands out the buffered bytes and starts a fresh, empty buffer.
    pub fn drain(&mut self) -> (r: BytesMut)
        requires
            old(self).wf(),
        ensures
            final(self).wf(),
            final(self).limit() == old(self).limit(),
            bytes_contents(r) == old(self).contents(),
            final(self).contents() == Seq::<u8>::empty(),
    {
        let mut fresh = bytes_with_capacity(INITIAL_RESERVE);
        std::mem::swap(&mut fresh, &mut self.buf);
        fresh
    }

    /// How many more bytes fit.
    pub fn available(&self) -> (r: usize)
        requires
            self.wf(),
        ensures
            r == self.limit() - self.contents().len(),
    {
        self.max_capacity - bytes_len(&self.buf)
    }

    /// How many bytes are buffered.
    pub fn len(&self) -> (r: usize)
        ensures
            r == self.contents().len(),
    {
        bytes_len(&self.buf)
    }

    /// Nothing is buffered.
    pub fn is_empty(&self) -> (r: bool)
        ensures
            r == (self.contents().len() == 0),
    {
        bytes_len(&self.buf) == 0
    }
}

/// Collects data and hands it on in blocks, counting blocks and bytes.
pub struct Pipeline {
    buffer: IngestBuffer,
    blocks_processed: u64,
    bytes_ingested: u64,
}

impl Pipeline {
    /// The buffered bytes.
    pub closed spec fn pending(&self) -> Seq<u8> {
        self.buffer.contents()
    }

    /// The buffer limit.
    pub closed spec fn limit(&self) -> usize {
        self.buffer.limit()
    }

    /// The blocks handed on and the bytes taken in so far.
    pub closed spec fn counters(&self) -> (u64, u64) {
        (self.blocks_processed, self.bytes_ingested)
    }

    /// The buffer keeps its limit.
    pub open spec fn wf(&self) -> bool {
        self.pending().len() <= self.limit()
    }

    /// A pipeline whose buffer holds at most `max_capacity` bytes.
    pub fn new(max_capacity: usize) -> (r: Self)
        ensures
            r.wf(),
            r.pending() == Seq::<u8>::empty(),
            r.limit() == max_capacity,
            r.counters() == (0u64, 0u64),
    {
        Pipeline { buffer: IngestBuffer::new(max_capacity), blocks_processed: 0, bytes_ingested: 0 }
    }

    /// Takes in `data`: refused whole when it does not fit; otherwise buffered and counted,
    /// and once `BLOCK_SIZE` bytes are buffered they are handed on as one block.
    pub fn ingest(&mut self, data: &[u8]) -> (r: IngestResult<usize>)
        requires
            old(self).wf(),
            old(self).counters().1 + data@.len() <= u64::MAX,
            old(self).counters().0 < u64::MAX,
        ensures
            final(self).wf(),
            final(self).limit() == old(self).limit(),
            old(self).pending().len() + data@.len() > old(self).limit() ==> (r matches Err(
                IngestError::BufferFull,
            )) && final(self).pending() == old(self).pending() && final(self).counters()
                == old(self).counters(),
            old(self).pending().len() + data@.len() <= old(self).limit() ==> {
                let buffered = old(self).pending() + data@;
                &&& r == Ok::<usize, IngestError>(data@.len() as usize)
                &&& final(self).counters().1 == old(self).counters().1 + data@.len()
                &&& if buffered.len() >= BLOCK_SIZE {
                    final(self).pending() == Seq::<u8>::empty() && final(self).counters().0
                        == old(self).counters().0 + 1
                } else {
                    final(self).pending() == buffered && final(self).counters().0 == old(
                        self,
                    ).counters().0
                }
            },
    {
        let n = match self.buffer.extend(data) {
            Ok(n) => n,
            Err(e) => return Err(e),
        };
        self.bytes_ingested = self.bytes_ingested + n as u64;
        if self.buffer.len() >= BLOCK_SIZE {
            self.process_block();
        }
        Ok(n)
    }

    fn process_block(&mut self)
        requires
            old(self).wf(),
            old(self).counters().0 < u64::MAX,
        ensures
            final(self).wf(),
            final(self).limit() == old(self).limit(),
            final(self).pending() == Seq::<u8>::empty(),
            final(self).counters() == ((old(self).counters().0 + 1) as u64, old(self).counters().1),
    {
        let _block = self.buffer.drain();
        self.blocks_processed = self.blocks_processed + 1;
    }

    /// The blocks handed on and the bytes taken in.
    pub fn stats(&self) -> (r: (u64, u64))
        ensures
            r == self.counters(),
    {
        (self.blocks_processed, self.bytes_ingested)
    }
}

} // verus!
