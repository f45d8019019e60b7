//! In-memory index of a topic log: which byte position holds which message offset.
use vstd::prelude::*;

use crate::broker::error::{BrokerError, BrokerResult};

verus! {

const INDEX_CHUNK_SIZE: usize = 10240;

/// Where one message lives: its offset, its byte position, and its encoded size.
#[derive(Clone, Copy, Debug)]
pub struct IndexEntry {
    pub offset: u64,
    pub position: u64,
    pub msg_size: u32,
}

/// The index entries of a topic, in the order they were added.
pub struct SegmentIndex {
    pub base_offset: u64,
    entries: Vec<IndexEntry>,
    next_offset: u64,
}

/// Whether the offsets of `es` strictly increase.
pub open spec fn offsets_increasing(es: Seq<IndexEntry>) -> bool {
    forall|i: int, j: int| 0 <= i < j < es.len() ==> es[i].offset < es[j].offset
}

/// The number of entries of `es` whose offset is at most `offset`.
pub open spec fn count_at_most(es: Seq<IndexEntry>, offset: u64) -> int
    decreases es.len(),
{
    if es.len() == 0 {
        0
    } else {
        count_at_most(es.drop_last(), offset) + if es.last().offset <= offset {
            1int
        } else {
            0int
        }
    }
}

/// The number of entries of `es` whose offset is below `offset`.
pub open spec fn count_below(es: Seq<IndexEntry>, offset: u64) -> int
    decreases es.len(),
{
    if es.len() == 0 {
        0
    } else {
        count_below(es.drop_last(), offset) + if es.last().offset < offset {
            1int
        } else {
            0int
        }
    }
}

proof fn lemma_count_sorted(es: Seq<IndexEntry>, offset: u64, k: int, strict: bool)
    requires
        offsets_increasing(es),
        0 <= k <= es.len(),
        forall|i: int| 0 <= i < k ==> (if strict { es[i].offset < offset } else { es[i].offset <= offset }),
        forall|i: int| k <= i < es.len() ==> !(if strict { es[i].offset < offset } else { es[i].offset <= offset }),
    ensures
        strict ==> count_below(es, offset) == k,
        !strict ==> count_at_most(es, offset) == k,
    decreases es.len(),
{
    if es.len() > 0 {
        let d = es.drop_last();
        if k == es.len() {
            lemma_count_sorted(d, offset, k - 1, strict);
        } else {
            lemma_count_sorted(d, offset, k, strict);
        }
    }
}

/// The error for an offset outside the indexed range.
pub open spec fn out_of_range(requested: u64, earliest: u64, latest: u64) -> BrokerResult<u64> {
    Err(BrokerError::OffsetOutOfRange { requested, earliest, latest })
}

impl SegmentIndex {
    /// The entries, oldest first.
    pub closed spec fn entries_view(&self) -> Seq<IndexEntry> {
        self.entries@
    }

    /// The first offset of the index.
    pub closed spec fn base(&self) -> u64 {
        self.base_offset
    }

    /// The offset the next added message is expected to take.
    pub closed spec fn next(&self) -> u64 {
        self.next_offset
    }

    /// An empty index whose first offset is `base_offset`.
    pub fn new(base_offset: u64) -> (r: Self)
        ensures
            r.base() == base_offset,
            r.entries_view() == Seq::<IndexEntry>::empty(),
            r.next() == base_offset,
    {
        Self { base_offset, entries: Vec::with_capacity(INDEX_CHUNK_SIZE), next_offset: base_offset }
    }

    /// An empty index with room for `capacity` entries reserved.
    pub fn with_capacity(base_offset: u64, capacity: usize) -> (r: Self)
        ensures
            r.base() == base_offset,
            r.entries_view() == Seq::<IndexEntry>::empty(),
            r.next() == base_offset,
    {
        Self { base_offset, entries: Vec::with_capacity(capacity), next_offset: base_offset }
    }

    /// The number of entries.
    pub fn len(&self) -> (n: usize)
        ensures
            n == self.entries_view().len(),
    {
        self.entries.len()
    }

    /// Whether there is no entry.
    pub fn is_empty(&self) -> (b: bool)
        ensures
            b == (self.entries_view().len() == 0),
    {
        self.entries.len() == 0
    }

    /// The offset the next added message is expected to take.
    pub fn next_offset(&self) -> (n: u64)
        ensures
            n == self.next(),
    {
        self.next_offset
    }

    /// The offset of the first entry, if any.
    pub fn earliest_offset(&self) -> (r: Option<u64>)
        ensures
            r == (if self.entries_view().len() == 0 {
                None
            } else {
                Some(self.entries_view()[0].offset)
            }),
    {
        if self.entries.len() == 0 {
            None
        } else {
            Some(self.entries[0].offset)
        }
    }

    /// The offset of the last entry, if any.
    pub fn latest_offset(&self) -> (r: Option<u64>)
        ensures
            r == (if self.entries_view().len() == 0 {
                None
            } else {
                Some(self.entries_view().last().offset)
            }),
    {
        if self.entries.len() == 0 {
            None
        } else {
            Some(self.entries[self.entries.len() - 1].offset)
        }
    }

    /// Records a message of `key_len` and `value_len` bytes stored at `position` under `offset`.
    pub fn add(&mut self, offset: u64, position: u64, key_len: u32, value_len: u32)
        requires
            20 + key_len + value_len <= u32::MAX,
            offset < u64::MAX,
        ensures
            final(self).base() == old(self).base(),
            final(self).entries_view() == old(self).entries_view().push(
                IndexEntry { offset, position, msg_size: (20 + key_len + value_len) as u32 },
            ),
            final(self).next() == offset + 1,
            offsets_increasing(old(self).entries_view()) && (old(self).entries_view().len() == 0
                || old(self).entries_view().last().offset < offset) ==> offsets_increasing(
                final(self).entries_view(),
            ),
    {
        let msg_size = 20u32 + key_len + value_len;
        self.entries.push(IndexEntry { offset, position, msg_size });
        self.next_offset = offset + 1;
    }

    /// Records each `(offset, position, msg_size)` of `items` in turn.
    pub fn batch_add(&mut self, items: Vec<(u64, u64, u32)>)
        requires
            forall|i: int| 0 <= i < items@.len() ==> items@[i].0 < u64::MAX,
        ensures
            final(self).base() == old(self).base(),
            final(self).entries_view() == old(self).entries_view() + items@.map_values(
                |t: (u64, u64, u32)| IndexEntry { offset: t.0, position: t.1, msg_size: t.2 },
            ),
            final(self).next() == (if items@.len() == 0 {
                old(self).next()
            } else {
                (items@.last().0 + 1) as u64
            }),
    {
        let n = items.len();
        let mut i: usize = 0;
        while i < n
            invariant
                n == items@.len(),
                i <= n,
                forall|k: int| 0 <= k < items@.len() ==> items@[k].0 < u64::MAX,
                self.base_offset == old(self).base(),
                self.entries@ == old(self).entries_view() + items@.subrange(0, i as int).map_values(
                    |t: (u64, u64, u32)| IndexEntry { offset: t.0, position: t.1, msg_size: t.2 },
                ),
                self.next_offset == (if i == 0 {
                    old(self).next()
                } else {
                    (items@[i - 1].0 + 1) as u64
                }),
            decreases n - i,
        {
            let (offset, position, msg_size) = items[i];
            self.entries.push(IndexEntry { offset, position, msg_size });
            self.next_offset = offset + 1;
            i = i + 1;
            assert(self.entries@ =~= old(self).entries_view() + items@.subrange(0, i as int).map_values(
                |t: (u64, u64, u32)| IndexEntry { offset: t.0, position: t.1, msg_size: t.2 },
            ));
        }
        assert(items@.subrange(0, n as int) =~= items@);
    }

    /// The position of `target` in the entries when it is present (`Ok`), or where it would
    /// be inserted (`Err`); on entries with increasing offsets, the insertion point is the
    /// number of entries with a smaller offset.
    fn binary_search(&self, target: u64) -> (r: Result<usize, usize>)
        ensures
            match r {
                Ok(i) => i < self.entries@.len() && self.entries@[i as int].offset == target,
                Err(i) => i <= self.entries@.len() && !(i < self.entries@.len()
                    && self.entries@[i as int].offset == target),
            },
            offsets_increasing(self.entries@) ==> ({
                let i = match r {
                    Ok(i) => i,
                    Err(i) => i,
                };
                &&& i == count_below(self.entries@, target)
                &&& forall|k: int| 0 <= k < i ==> self.entries@[k].offset < target
                &&& forall|k: int| i <= k < self.entries@.len() ==> self.entries@[k].offset >= target
            }),
    {
        let ghost es = self.entries@;
        let mut lo: usize = 0;
        let mut hi: usize = self.entries.len();
        while lo < hi
            invariant
                es == self.entries@,
                lo <= hi <= es.len(),
                offsets_increasing(es) ==> forall|k: int| 0 <= k < lo ==> es[k].offset < target,
                offsets_increasing(es) ==> forall|k: int| hi <= k < es.len() ==> es[k].offset >= target,
            decreases hi - lo,
        {
            let mid = lo + (hi - lo) / 2;
            if self.entries[mid].offset < target {
                lo = mid + 1;
            } else {
                hi = mid;
            }
        }
        proof {
            if offsets_increasing(es) {
                lemma_count_sorted(es, target, lo as int, true);
            }
        }
        if lo < self.entries.len() && self.entries[lo].offset == target {
            Ok(lo)
        } else {
            Err(lo)
        }
    }

    /// The byte position of the message with `offset`, or, when no entry has exactly that
    /// offset, of the last entry before it. Offsets outside the indexed range are refused.
    pub fn find_position(&self, offset: u64) -> (r: BrokerResult<u64>)
        ensures
            ({
                let es = self.entries_view();
                if es.len() == 0 {
                    r == out_of_range(offset, 0, 0)
                } else if offset < es[0].offset || offset > es.last().offset {
                    r == out_of_range(offset, es[0].offset, es.last().offset)
                } else {
                    &&& r is Ok
                    &&& exists|i: int| 0 <= i < es.len() && r == Ok::<u64, BrokerError>(es[i].position)
                    &&& offsets_increasing(es) ==> r == Ok::<u64, BrokerError>(
                        es[count_at_most(es, offset) - 1].position,
                    )
                }
            }),
    {
        let ghost es = self.entries@;
        let n = self.entries.len();
        if n == 0 {
            return Err(BrokerError::OffsetOutOfRange { requested: offset, earliest: 0, latest: 0 });
        }
        if offset < self.entries[0].offset {
            let earliest = self.entries[0].offset;
            let latest = self.entries[n - 1].offset;
            return Err(BrokerError::OffsetOutOfRange { requested: offset, earliest, latest });
        }
        if offset > self.entries[n - 1].offset {
            return Err(
                BrokerError::OffsetOutOfRange {
                    requested: offset,
                    earliest: self.entries[0].offset,
                    latest: self.entries[n - 1].offset,
                },
            );
        }
        let r = self.binary_search(offset);
        proof {
            if offsets_increasing(es) {
                match r {
                    Ok(i) => {
                        assert forall|k: int| 0 <= k < es.len() implies (es[k].offset <= offset
                            <==> k <= i) by {
                            if k < i {
                                assert(es[k].offset < es[i as int].offset);
                            } else if k > i {
                                assert(es[i as int].offset < es[k].offset);
                            }
                        }
                        lemma_count_sorted(es, offset, i + 1, false);
                    },
                    Err(i) => {
                        assert forall|k: int| 0 <= k < es.len() implies (es[k].offset <= offset
                            <==> k < i) by {
                            if k > i && es[k].offset == offset {
                                assert(es[i as int].offset < es[k].offset);
                            }
                        }
                        lemma_count_sorted(es, offset, i as int, false);
                    },
                }
            }
        }
        match r {
            Ok(idx) => Ok(self.entries[idx].position),
            Err(idx) => {
                if idx == 0 {
                    Ok(self.entries[0].position)
                } else {
                    Ok(self.entries[idx - 1].position)
                }
            },
        }
    }

    /// Copies of the entries from the first one whose offset is at least `start_offset`
    /// (on increasing offsets) to the end.
    pub fn scan_from(&self, start_offset: u64) -> (r: Vec<IndexEntry>)
        ensures
            exists|k: int|
                0 <= k <= self.entries_view().len() && r@ == self.entries_view().subrange(
                    k,
                    self.entries_view().len() as int,
                ),
            offsets_increasing(self.entries_view()) ==> r@ == self.entries_view().subrange(
                count_below(self.entries_view(), start_offset),
                self.entries_view().len() as int,
            ),
    {
        let start_idx = match self.binary_search(start_offset) {
            Ok(idx) => idx,
            Err(idx) => idx,
        };
        let n = self.entries.len();
        let mut out: Vec<IndexEntry> = Vec::new();
        let mut i: usize = start_idx;
        proof {
            if offsets_increasing(self.entries@) {
                assert(start_idx == count_below(self.entries@, start_offset));
            }
        }
        while i < n
            invariant
                start_idx <= i <= n,
                n == self.entries@.len(),
                out@ == self.entries@.subrange(start_idx as int, i as int),
            decreases n - i,
        {
            out.push(self.entries[i]);
            i = i + 1;
            assert(out@ =~= self.entries@.subrange(start_idx as int, i as int));
        }
        assert(0 <= start_idx <= self.entries_view().len() && out@ == self.entries_view().subrange(
            start_idx as int,
            self.entries_view().len() as int,
        ));
        out
    }
}

/// On an index whose offsets increase, a message added under a higher offset is found again
/// under that offset: the lookup's entry is the added one.
pub proof fn lemma_added_offset_found(es: Seq<IndexEntry>, e: IndexEntry)
    requires
        offsets_increasing(es),
        es.len() == 0 || es.last().offset < e.offset,
    ensures
        offsets_increasing(es.push(e)),
        count_at_most(es.push(e), e.offset) - 1 == es.len(),
        es.push(e)[count_at_most(es.push(e), e.offset) - 1] == e,
{
    let es2 = es.push(e);
    assert forall|i: int, j: int| 0 <= i < j < es2.len() implies es2[i].offset < es2[j].offset by {
        if j == es.len() {
            if i < es.len() - 1 {
                assert(es[i].offset < es[es.len() - 1].offset);
            }
        }
    }
    lemma_count_sorted(es2, e.offset, es2.len() as int, false);
}

} // verus!
