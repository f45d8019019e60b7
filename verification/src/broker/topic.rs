//! The bookkeeping of a topic's log: topic ids, segment accounting, which segment holds an
//! offset, and rebuilding the index from what a scan of the segments found.
use vstd::prelude::*;
use vstd::string::StringSliceAdditionalSpecFns;

use crate::broker::error::{BrokerError, BrokerResult};
use crate::broker::index::{IndexEntry, SegmentIndex};
use crate::broker::segment::MessageHeader;

verus! {

/// FNV-1a over `bytes`, 32 bits.
pub open spec fn fnv1a(bytes: Seq<u8>) -> u32
    decreases bytes.len(),
{
    if bytes.len() == 0 {
        0x811C9DC5u32
    } else {
        vstd::wrapping::u32_specs::wrapping_mul(
            fnv1a(bytes.drop_last()) ^ (bytes.last() as u32),
            0x01000193u32,
        )
    }
}

/// The id of a topic: the FNV-1a hash of its name's bytes.
pub fn hash_topic_name(name: &str) -> (r: u32)
    ensures
        r == fnv1a(name.spec_bytes()),
{
    let bytes = name.as_bytes();
    let mut hash: u32 = 0x811C_9DC5;
    let mut i: usize = 0;
    while i < bytes.len()
        invariant
            i <= bytes@.len(),
            bytes@ == name.spec_bytes(),
            hash == fnv1a(bytes@.take(i as int)),
        decreases bytes@.len() - i,
    {
        proof {
            assert(bytes@.take(i + 1).drop_last() =~= bytes@.take(i as int));
        }
        hash = hash ^ (bytes[i] as u32);
        hash = hash.wrapping_mul(0x0100_0193);
        i = i + 1;
    }
    assert(bytes@.take(i as int) =~= bytes@);
    hash
}

/// The accounting of one segment file.
#[derive(Debug, Clone, Copy)]
pub struct SegmentMeta {
    pub base_offset: u64,
    pub size: u64,
    pub message_count: u64,
    pub sealed: bool,
}

/// Accounts for a record of `record_len` bytes written to the segment and returns where it
/// starts; a sealed segment takes nothing, and one that reaches `max_size` is sealed.
pub fn segment_append(meta: &mut SegmentMeta, max_size: u64, record_len: u64) -> (r: BrokerResult<u64>)
    requires
        old(meta).sealed || old(meta).size + record_len <= u64::MAX,
        old(meta).sealed || old(meta).message_count < u64::MAX,
    ensures
        old(meta).sealed ==> *final(meta) == *old(meta) && (r matches Err(
            BrokerError::InvalidArgument(m),
        ) && m@ == "segment is sealed"@),
        !old(meta).sealed ==> {
            &&& r == Ok::<u64, BrokerError>(old(meta).size)
            &&& final(meta).base_offset == old(meta).base_offset
            &&& final(meta).size == old(meta).size + record_len
            &&& final(meta).message_count == old(meta).message_count + 1
            &&& final(meta).sealed == (old(meta).size + record_len >= max_size)
        },
{
    if meta.sealed {
        return Err(BrokerError::InvalidArgument("segment is sealed".to_owned()));
    }
    let pos = meta.size;
    meta.size = meta.size + record_len;
    meta.message_count = meta.message_count + 1;
    if meta.size >= max_size {
        meta.sealed = true;
    }
    Ok(pos)
}

/// Segment `s` holds offset `offset`.
pub open spec fn holds_offset(s: SegmentMeta, offset: u64) -> bool {
    s.base_offset <= offset < s.base_offset + s.message_count
}

/// The segment to read `offset` from: the first that holds it, else the active one.
pub open spec fn segment_for(segments: Seq<SegmentMeta>, active: int, offset: u64) -> int {
    if exists|i: int| 0 <= i < segments.len() && #[trigger] holds_offset(segments[i], offset) {
        choose|i: int|
            0 <= i < segments.len() && holds_offset(segments[i], offset) && forall|j: int|
                0 <= j < i ==> !#[trigger] holds_offset(segments[j], offset)
    } else {
        active
    }
}

/// The segment to read `offset` from.
pub fn select_segment(segments: &[SegmentMeta], active: usize, offset: u64) -> (r: usize)
    ensures
        r == segment_for(segments@, active as int, offset),
{
    let mut i: usize = 0;
    while i < segments.len()
        invariant
            i <= segments@.len(),
            forall|j: int| 0 <= j < i ==> !#[trigger] holds_offset(segments@[j], offset),
        decreases segments@.len() - i,
    {
        let s = segments[i];
        if offset >= s.base_offset && (offset - s.base_offset) < s.message_count {
            proof {
                assert(holds_offset(segments@[i as int], offset));
                let k = choose|k: int|
                    0 <= k < segments@.len() && holds_offset(segments@[k], offset) && forall|j: int|
                        0 <= j < k ==> !#[trigger] holds_offset(segments@[j], offset);
                if k < i {
                    assert(!holds_offset(segments@[k], offset));
                } else if k > i {
                    assert(!holds_offset(segments@[i as int], offset));
                }
            }
            return i;
        }
        i = i + 1;
    }
    active
}

/// What scanning a segment found: its base offset, whether it is sealed, and its intact
/// records with their positions.
pub struct ScannedSegment {
    pub base_offset: u64,
    pub sealed: bool,
    pub entries: Vec<(MessageHeader, u64)>,
}

/// A record can be indexed: its size fits the index and its offset has a successor.
pub open spec fn indexable(h: MessageHeader) -> bool {
    &&& 20 + h.key_len + h.value_len <= u32::MAX
    &&& h.offset < u64::MAX
}

/// The index entry of a scanned record.
pub open spec fn entry_of(e: (MessageHeader, u64)) -> IndexEntry {
    IndexEntry {
        offset: e.0.offset,
        position: e.1,
        msg_size: (20 + e.0.key_len + e.0.value_len) as u32,
    }
}

/// The index entries of the scanned segments, segment by segment.
pub open spec fn all_entries(segs: Seq<ScannedSegment>) -> Seq<IndexEntry>
    decreases segs.len(),
{
    if segs.len() == 0 {
        Seq::empty()
    } else {
        all_entries(segs.drop_last()) + segs.last().entries@.map_values(
            |e: (MessageHeader, u64)| entry_of(e),
        )
    }
}

/// The first unsealed segment, if any.
pub open spec fn first_unsealed(segs: Seq<ScannedSegment>) -> Option<int> {
    if exists|i: int| 0 <= i < segs.len() && !#[trigger] segs[i].sealed {
        Some(
            choose|i: int|
                0 <= i < segs.len() && !segs[i].sealed && forall|j: int|
                    0 <= j < i ==> #[trigger] segs[j].sealed,
        )
    } else {
        None
    }
}

/// What reopening a topic rebuilds from its scanned segments.
pub struct Rebuilt {
    pub index: SegmentIndex,
    pub message_counts: Vec<u64>,
    pub next_offset: u64,
    pub active: Option<usize>,
}

/// Rebuilds a topic's index from its scanned segments, oldest first: every intact record is
/// indexed in order, each segment's message count is its number of records, the next offset
/// follows the last record, and the active segment is the first unsealed one.
pub fn rebuild(segments: &Vec<ScannedSegment>) -> (r: Rebuilt)
    requires
        segments@.len() > 0,
        forall|i: int, j: int|
            0 <= i < segments@.len() && 0 <= j < segments@[i].entries@.len() ==> indexable(
                #[trigger] segments@[i].entries@[j].0,
            ),
    ensures
        r.index.base() == segments@[0].base_offset,
        r.index.entries_view() == all_entries(segments@),
        r.message_counts@.len() == segments@.len(),
        forall|i: int|
            0 <= i < segments@.len() ==> #[trigger] r.message_counts@[i] == segments@[i].entries@.len(),
        r.next_offset == (if all_entries(segments@).len() == 0 {
            segments@[0].base_offset
        } else {
            (all_entries(segments@).last().offset + 1) as u64
        }),
        match first_unsealed(segments@) {
            Some(i) => r.active == Some(i as usize),
            None => r.active is None,
        },
{
    let base = segments[0].base_offset;
    let mut index = SegmentIndex::new(base);
    let mut counts: Vec<u64> = Vec::new();
    let mut last_offset = base;
    let mut active: Option<usize> = None;
    let mut s: usize = 0;
    while s < segments.len()
        invariant
            s <= segments@.len(),
            segments@.len() > 0,
            base == segments@[0].base_offset,
            forall|i: int, j: int|
                0 <= i < segments@.len() && 0 <= j < segments@[i].entries@.len() ==> indexable(
                    #[trigger] segments@[i].entries@[j].0,
                ),
            index.base() == base,
            index.entries_view() == all_entries(segments@.take(s as int)),
            last_offset == (if all_entries(segments@.take(s as int)).len() == 0 {
                base
            } else {
                (all_entries(segments@.take(s as int)).last().offset + 1) as u64
            }),
            counts@.len() == s,
            forall|i: int| 0 <= i < s ==> #[trigger] counts@[i] == segments@[i].entries@.len(),
            match active {
                Some(a) => a < s && !segments@[a as int].sealed && forall|j: int|
                    0 <= j < a ==> #[trigger] segments@[j].sealed,
                None => forall|j: int| 0 <= j < s ==> #[trigger] segments@[j].sealed,
            },
        decreases segments@.len() - s,
    {
        let seg = &segments[s];
        let ghost before = index.entries_view();
        let mut k: usize = 0;
        while k < seg.entries.len()
            invariant
                s < segments@.len(),
                *seg == segments@[s as int],
                k <= seg.entries@.len(),
                forall|j: int| 0 <= j < seg.entries@.len() ==> indexable(#[trigger] seg.entries@[j].0),
                index.base() == base,
                index.entries_view() == before + seg.entries@.take(k as int).map_values(
                    |e: (MessageHeader, u64)| entry_of(e),
                ),
                last_offset == (if index.entries_view().len() == 0 {
                    base
                } else {
                    (index.entries_view().last().offset + 1) as u64
                }),
            decreases seg.entries@.len() - k,
        {
            let (hdr, pos) = seg.entries[k];
            assert(indexable(seg.entries@[k as int].0));
            index.add(hdr.offset, pos, hdr.key_len, hdr.value_len);
            last_offset = hdr.offset + 1;
            proof {
                assert(seg.entries@.take(k + 1) =~= seg.entries@.take(k as int).push(seg.entries@[k as int]));
                assert(index.entries_view() =~= before + seg.entries@.take(k + 1).map_values(
                    |e: (MessageHeader, u64)| entry_of(e),
                ));
            }
            k = k + 1;
        }
        proof {
            assert(seg.entries@.take(k as int) =~= seg.entries@);
            assert(segments@.take(s + 1).drop_last() =~= segments@.take(s as int));
            assert(segments@.take(s + 1).last() == segments@[s as int]);
        }
        counts.push(seg.entries.len() as u64);
        if active.is_none() && !seg.sealed {
            active = Some(s);
        }
        s = s + 1;
    }
    proof {
        assert(segments@.take(s as int) =~= segments@);
        match active {
            Some(a) => {
                let c = choose|i: int|
                    0 <= i < segments@.len() && !segments@[i].sealed && forall|j: int|
                        0 <= j < i ==> #[trigger] segments@[j].sealed;
                assert(!segments@[a as int].sealed);
                if c < a {
                    assert(segments@[c].sealed);
                } else if c > a {
                    assert(segments@[a as int].sealed);
                }
            },
            None => {},
        }
    }
    Rebuilt { index, message_counts: counts, next_offset: last_offset, active }
}

} // verus!
