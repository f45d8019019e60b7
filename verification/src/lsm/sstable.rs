//! The sorted table file format: the records one after another, then an index of every key
//! with the position of its record, then a footer with the index position, the key count
//! and a magic tag.
use vstd::prelude::*;

use crate::lsm::memtable::{value_view, KeyValuePair};
use crate::lsm::order::{bytes_lt, compare_bytes};
use crate::wire::{
    be32, be64, copy_range, lemma_be32_roundtrip, lemma_be64_roundtrip, push_be32, push_be64,
    push_bytes, read_u32, read_u64, u32_at, u64_at,
};

verus! {

/// The largest key length an index may hold.
pub const MAX_KEY_LEN: usize = 16777216;

/// The largest value length a lookup accepts.
pub const MAX_VALUE_LEN: usize = 16777216;

/// The size of the footer.
pub const FOOTER_SIZE: usize = 20;

/// The tag that ends every table file.
pub open spec fn magic() -> Seq<u8> {
    seq![76u8, 83u8, 77u8, 83u8, 83u8, 84u8, 65u8, 66u8]
}

/// Why table bytes could not be read.
#[derive(Debug, Clone, Copy, PartialEq, Eq, Structural)]
pub enum SstError {
    /// Fewer bytes than a footer.
    TooSmall,
    /// The footer does not end with the tag.
    BadMagic,
    /// An index key longer than `MAX_KEY_LEN`.
    KeyTooLong(u32),
    /// A value longer than `MAX_VALUE_LEN`.
    ValueTooLong(u32),
    /// The bytes end inside a record.
    Truncated,
}

/// An entry as plain bytes.
pub open spec fn entry_view(e: KeyValuePair) -> (Seq<u8>, Option<Seq<u8>>) {
    (e.0@, value_view(e.1))
}

/// The record of an entry: key length, value length (0 for a deletion), a deletion flag,
/// the key, and the value if any.
pub open spec fn record(k: Seq<u8>, v: Option<Seq<u8>>) -> Seq<u8> {
    match v {
        Some(b) => be32(k.len() as u32) + be32(b.len() as u32) + seq![0u8] + k + b,
        None => be32(k.len() as u32) + be32(0) + seq![1u8] + k,
    }
}

/// The records of the entries, one after another.
pub open spec fn records(es: Seq<(Seq<u8>, Option<Seq<u8>>)>) -> Seq<u8>
    decreases es.len(),
{
    if es.len() == 0 {
        Seq::empty()
    } else {
        records(es.drop_last()) + record(es.last().0, es.last().1)
    }
}

/// The index of the entries: each key with the position of its record.
pub open spec fn index_block(es: Seq<(Seq<u8>, Option<Seq<u8>>)>) -> Seq<u8>
    decreases es.len(),
{
    if es.len() == 0 {
        Seq::empty()
    } else {
        let k = es.last().0;
        index_block(es.drop_last()) + be32(k.len() as u32) + k + be64(
            records(es.drop_last()).len() as u64,
        )
    }
}

/// The bytes of a table holding the entries.
pub open spec fn table_bytes(es: Seq<(Seq<u8>, Option<Seq<u8>>)>) -> Seq<u8> {
    records(es) + index_block(es) + be64(records(es).len() as u64) + be32(es.len() as u32)
        + magic()
}

/// Every key and value fits its length field.
pub open spec fn encodable(es: Seq<KeyValuePair>) -> bool {
    &&& es.len() <= u32::MAX
    &&& forall|i: int|
        0 <= i < es.len() ==> #[trigger] es[i].0@.len() <= u32::MAX && match es[i].1 {
            Some(v) => v@.len() <= u32::MAX,
            None => true,
        }
}

/// The bytes of a table holding `entries`, in the order given.
pub fn encode_table(entries: &Vec<KeyValuePair>) -> (r: Vec<u8>)
    requires
        encodable(entries@),
        table_bytes(entries@.map_values(|e: KeyValuePair| entry_view(e))).len() <= u64::MAX,
    ensures
        r@ == table_bytes(entries@.map_values(|e: KeyValuePair| entry_view(e))),
{
    let ghost es = entries@.map_values(|e: KeyValuePair| entry_view(e));
    let n = entries.len();
    let mut data: Vec<u8> = Vec::new();
    let mut index: Vec<u8> = Vec::new();
    let mut i: usize = 0;
    proof {
        assert(es.take(0) =~= Seq::<(Seq<u8>, Option<Seq<u8>>)>::empty());
    }
    while i < n
        invariant
            n == entries@.len(),
            es == entries@.map_values(|e: KeyValuePair| entry_view(e)),
            encodable(entries@),
            table_bytes(es).len() <= u64::MAX,
            i <= n,
            data@ == records(es.take(i as int)),
            index@ == index_block(es.take(i as int)),
        decreases n - i,
    {
        let ghost before = es.take(i as int);
        proof {
            assert(es.take(i + 1).drop_last() =~= before);
            assert(es.take(i + 1).last() == es[i as int]);
            assert(entries@[i as int].0@.len() <= u32::MAX);
            lemma_records_prefix_len(es, i + 1);
        }
        let key = &entries[i].0;
        let pos = data.len() as u64;
        push_be32(&mut index, key.len() as u32);
        push_bytes(&mut index, key.as_slice());
        push_be64(&mut index, pos);
        push_be32(&mut data, key.len() as u32);
        match &entries[i].1 {
            Some(v) => {
                push_be32(&mut data, v.len() as u32);
                data.push(0u8);
                push_bytes(&mut data, key.as_slice());
                push_bytes(&mut data, v.as_slice());
            },
            None => {
                push_be32(&mut data, 0);
                data.push(1u8);
                push_bytes(&mut data, key.as_slice());
            },
        }
        proof {
            assert(data@ =~= records(es.take(i + 1)));
            assert(index@ =~= index_block(es.take(i + 1)));
        }
        i = i + 1;
    }
    proof {
        assert(es.take(n as int) =~= es);
    }
    let index_offset = data.len() as u64;
    let mut out = data;
    push_bytes(&mut out, index.as_slice());
    push_be64(&mut out, index_offset);
    push_be32(&mut out, n as u32);
    out.push(76u8);
    out.push(83u8);
    out.push(77u8);
    out.push(83u8);
    out.push(83u8);
    out.push(84u8);
    out.push(65u8);
    out.push(66u8);
    assert(out@ =~= table_bytes(es));
    out
}

/// Writes tables.
pub struct SstableWriter;

impl SstableWriter {
    /// The bytes of a table holding `entries`, in the order given; see `encode_table`.
    pub fn encode(entries: &Vec<KeyValuePair>) -> (r: Vec<u8>)
        requires
            encodable(entries@),
            table_bytes(entries@.map_values(|e: KeyValuePair| entry_view(e))).len() <= u64::MAX,
        ensures
            r@ == table_bytes(entries@.map_values(|e: KeyValuePair| entry_view(e))),
    {
        encode_table(entries)
    }
}

proof fn lemma_records_prefix_len(es: Seq<(Seq<u8>, Option<Seq<u8>>)>, k: int)
    requires
        0 <= k <= es.len(),
    ensures
        records(es.take(k)).len() <= records(es).len(),
        index_block(es.take(k)).len() <= index_block(es).len(),
    decreases es.len() - k,
{
    if k < es.len() {
        lemma_records_prefix_len(es, k + 1);
        assert(es.take(k + 1).drop_last() =~= es.take(k));
    } else {
        assert(es.take(k) =~= es);
    }
}

/// What the footer of `b` says: the index position and the key count.
pub open spec fn footer_of(b: Seq<u8>) -> Result<(u64, u32), SstError> {
    if b.len() < 20 {
        Err(SstError::TooSmall)
    } else if b.subrange(b.len() - 8, b.len() as int) != magic() {
        Err(SstError::BadMagic)
    } else {
        Ok((u64_at(b, b.len() - 20), u32_at(b, b.len() - 12)))
    }
}

/// Reads the footer of a table's bytes.
pub fn parse_footer(bytes: &[u8]) -> (r: Result<(u64, u32), SstError>)
    ensures
        r == footer_of(bytes@),
{
    let n = bytes.len();
    if n < 20 {
        return Err(SstError::TooSmall);
    }
    let tag = copy_range(bytes, n - 8, n);
    if !(tag[0] == 76u8 && tag[1] == 83u8 && tag[2] == 77u8 && tag[3] == 83u8 && tag[4] == 83u8
        && tag[5] == 84u8 && tag[6] == 65u8 && tag[7] == 66u8) {
        proof {
            if bytes@.subrange(n - 8, n as int) == magic() {
                assert(tag@ == magic());
            }
        }
        return Err(SstError::BadMagic);
    }
    assert(tag@ =~= magic());
    Ok((read_u64(bytes, n - 20), read_u32(bytes, n - 12)))
}

/// The `count` index entries of `b` from `pos` on: a key length, the key, the position of
/// its record.
pub open spec fn read_index(b: Seq<u8>, pos: int, count: nat) -> Result<Seq<(Seq<u8>, u64)>, SstError>
    decreases count,
{
    if count == 0 {
        Ok(Seq::empty())
    } else if pos + 4 > b.len() {
        Err(SstError::Truncated)
    } else if u32_at(b, pos) > MAX_KEY_LEN {
        Err(SstError::KeyTooLong(u32_at(b, pos)))
    } else {
        let kl = u32_at(b, pos) as int;
        if pos + 4 + kl + 8 > b.len() {
            Err(SstError::Truncated)
        } else {
            match read_index(b, pos + 4 + kl + 8, (count - 1) as nat) {
                Ok(rest) => Ok(seq![(b.subrange(pos + 4, pos + 4 + kl), u64_at(b, pos + 4 + kl))] + rest),
                Err(e) => Err(e),
            }
        }
    }
}

/// An index entry as plain values.
pub open spec fn index_entry_view(e: (Vec<u8>, u64)) -> (Seq<u8>, u64) {
    (e.0@, e.1)
}

/// Reads `count` index entries from position `index_offset` on.
pub fn parse_index(bytes: &[u8], index_offset: u64, count: u32) -> (r: Result<Vec<(Vec<u8>, u64)>, SstError>)
    ensures
        match read_index(bytes@, index_offset as int, count as nat) {
            Ok(es) => r matches Ok(v) && v@.map_values(|e: (Vec<u8>, u64)| index_entry_view(e)) == es,
            Err(e) => r == Err::<Vec<(Vec<u8>, u64)>, SstError>(e),
        },
{
    let n = bytes.len() as u64;
    let mut pos: u64 = index_offset;
    let mut left: u32 = count;
    let mut out: Vec<(Vec<u8>, u64)> = Vec::new();
    while left > 0
        invariant
            n == bytes@.len(),
            match read_index(bytes@, pos as int, left as nat) {
                Ok(rest) => match read_index(bytes@, index_offset as int, count as nat) {
                    Ok(all) => out@.map_values(|e: (Vec<u8>, u64)| index_entry_view(e)) + rest == all,
                    Err(_) => false,
                },
                Err(e) => read_index(bytes@, index_offset as int, count as nat) == Err::<Seq<(Seq<u8>, u64)>, SstError>(e),
            },
        decreases left,
    {
        let ghost before = out@.map_values(|e: (Vec<u8>, u64)| index_entry_view(e));
        assert(bytes@.len() == bytes.len());
        if pos > n || n - pos < 4 {
            assert(read_index(bytes@, pos as int, left as nat) == Err::<Seq<(Seq<u8>, u64)>, SstError>(SstError::Truncated));
            return Err(SstError::Truncated);
        }
        let p = pos as usize;
        let kl = read_u32(bytes, p);
        if kl as usize > MAX_KEY_LEN {
            assert(read_index(bytes@, pos as int, left as nat) == Err::<Seq<(Seq<u8>, u64)>, SstError>(SstError::KeyTooLong(kl)));
            return Err(SstError::KeyTooLong(kl));
        }
        if (n - pos - 4) < kl as u64 + 8 {
            assert(read_index(bytes@, pos as int, left as nat) == Err::<Seq<(Seq<u8>, u64)>, SstError>(SstError::Truncated));
            return Err(SstError::Truncated);
        }
        let key = copy_range(bytes, p + 4, p + 4 + kl as usize);
        let off = read_u64(bytes, p + 4 + kl as usize);
        let ghost e = (key, off);
        out.push((key, off));
        proof {
            assert(out@.map_values(|e: (Vec<u8>, u64)| index_entry_view(e)) =~= before.push(index_entry_view(e)));
        }
        proof {
            let nx = pos + 4 + kl + 8;
            let ent = (bytes@.subrange(pos + 4, pos + 4 + kl), u64_at(bytes@, pos + 4 + kl));
            assert(index_entry_view(e) == ent);
            match read_index(bytes@, nx, (left - 1) as nat) {
                Ok(rest) => {
                    assert(read_index(bytes@, pos as int, left as nat) == Ok::<Seq<(Seq<u8>, u64)>, SstError>(seq![ent] + rest));
                    assert(before.push(ent) + rest =~= before + (seq![ent] + rest));
                },
                Err(er) => {
                    assert(read_index(bytes@, pos as int, left as nat) == Err::<Seq<(Seq<u8>, u64)>, SstError>(er));
                },
            }
        }
        pos = pos + 4 + kl as u64 + 8;
        left = left - 1;
    }
    proof {
        assert(out@.map_values(|e: (Vec<u8>, u64)| index_entry_view(e)) + Seq::<(Seq<u8>, u64)>::empty() =~= out@.map_values(|e: (Vec<u8>, u64)| index_entry_view(e)));
    }
    Ok(out)
}

/// The index keys strictly increase.
pub open spec fn index_sorted(ix: Seq<(Vec<u8>, u64)>) -> bool {
    forall|i: int, j: int| 0 <= i < j < ix.len() ==> bytes_lt(ix[i].0@, ix[j].0@)
}

/// Finds `key` in the index by halving; on a sorted index it finds it exactly when it is
/// there.
pub fn find_key(index: &Vec<(Vec<u8>, u64)>, key: &[u8]) -> (r: Option<usize>)
    ensures
        r matches Some(i) ==> i < index@.len() && index@[i as int].0@ == key@,
        index_sorted(index@) ==> (r is None <==> forall|i: int|
            0 <= i < index@.len() ==> #[trigger] index@[i].0@ != key@),
{
    let mut lo: usize = 0;
    let mut hi: usize = index.len();
    while lo < hi
        invariant
            lo <= hi <= index@.len(),
            index_sorted(index@) ==> forall|i: int| 0 <= i < lo ==> bytes_lt(#[trigger] index@[i].0@, key@),
            index_sorted(index@) ==> forall|i: int| hi <= i < index@.len() ==> bytes_lt(key@, #[trigger] index@[i].0@),
        decreases hi - lo,
    {
        let mid = lo + (hi - lo) / 2;
        let c = compare_bytes(index[mid].0.as_slice(), key);
        if c == 0 {
            return Some(mid);
        }
        if c < 0 {
            proof {
                if index_sorted(index@) {
                    assert forall|i: int| 0 <= i <= mid implies bytes_lt(#[trigger] index@[i].0@, key@) by {
                        if i < mid {
                            crate::lsm::order::lemma_lt_transitive(index@[i].0@, index@[mid as int].0@, key@);
                        }
                    }
                }
            }
            lo = mid + 1;
        } else {
            proof {
                if index_sorted(index@) {
                    assert forall|i: int| mid <= i < index@.len() implies bytes_lt(key@, #[trigger] index@[i].0@) by {
                        if i > mid {
                            crate::lsm::order::lemma_lt_transitive(key@, index@[mid as int].0@, index@[i].0@);
                        }
                    }
                }
            }
            hi = mid;
        }
    }
    proof {
        if index_sorted(index@) {
            assert forall|i: int| 0 <= i < index@.len() implies #[trigger] index@[i].0@ != key@ by {
                crate::lsm::order::lemma_lt_irreflexive(key@);
            }
        }
    }
    None
}

/// What the record at `pos` holds for lookups: a deletion (`None`) or the value; its key
/// is skipped unread.
pub open spec fn value_at(b: Seq<u8>, pos: int) -> Result<Option<Seq<u8>>, SstError> {
    if pos + 8 > b.len() {
        Err(SstError::Truncated)
    } else if u32_at(b, pos + 4) > MAX_VALUE_LEN {
        Err(SstError::ValueTooLong(u32_at(b, pos + 4)))
    } else if pos + 9 > b.len() {
        Err(SstError::Truncated)
    } else if b[pos + 8] != 0 {
        Ok(None)
    } else {
        let start = pos + 9 + u32_at(b, pos);
        let vl = u32_at(b, pos + 4) as int;
        if start + vl > b.len() {
            Err(SstError::Truncated)
        } else {
            Ok(Some(b.subrange(start, start + vl)))
        }
    }
}

/// Reads the value or deletion of the record at `pos`.
pub fn read_value_at(bytes: &[u8], pos: u64) -> (r: Result<Option<Vec<u8>>, SstError>)
    ensures
        match value_at(bytes@, pos as int) {
            Ok(v) => r matches Ok(x) && value_view(x) == v,
            Err(e) => r == Err::<Option<Vec<u8>>, SstError>(e),
        },
{
    assert(bytes@.len() == bytes.len());
    let n = bytes.len() as u64;
    if pos > n || n - pos < 8 {
        return Err(SstError::Truncated);
    }
    let p = pos as usize;
    let kl = read_u32(bytes, p) as u64;
    let vl = read_u32(bytes, p + 4);
    if vl as usize > MAX_VALUE_LEN {
        return Err(SstError::ValueTooLong(vl));
    }
    if n - pos < 9 {
        return Err(SstError::Truncated);
    }
    if bytes[p + 8] != 0 {
        return Ok(None);
    }
    if n - pos - 9 < kl || n - pos - 9 - kl < vl as u64 {
        return Err(SstError::Truncated);
    }
    let start = p + 9 + kl as usize;
    let v = copy_range(bytes, start, start + vl as usize);
    Ok(Some(v))
}

/// What a lookup of `key` in a table finds: nothing, a deletion, or a value.
pub fn table_get(bytes: &[u8], index: &Vec<(Vec<u8>, u64)>, key: &[u8]) -> (r: Result<
    Option<Option<Vec<u8>>>,
    SstError,
>)
    ensures
        index_sorted(index@) && (forall|i: int| 0 <= i < index@.len() ==> #[trigger] index@[i].0@ != key@) ==> r == Ok::<Option<Option<Vec<u8>>>, SstError>(None),
        forall|i: int|
            0 <= i < index@.len() && #[trigger] index@[i].0@ == key@ && index_sorted(index@) ==> match value_at(bytes@, index@[i].1 as int) {
                Ok(v) => r matches Ok(Some(x)) && value_view(x) == v,
                Err(e) => r == Err::<Option<Option<Vec<u8>>>, SstError>(e),
            },
{
    match find_key(index, key) {
        None => Ok(None),
        Some(i) => {
            proof {
                if index_sorted(index@) {
                    assert forall|j: int| 0 <= j < index@.len() && #[trigger] index@[j].0@ == key@ implies j == i by {
                        if j < i {
                            assert(bytes_lt(index@[j].0@, index@[i as int].0@));
                            crate::lsm::order::lemma_lt_irreflexive(key@);
                        } else if j > i {
                            assert(bytes_lt(index@[i as int].0@, index@[j].0@));
                            crate::lsm::order::lemma_lt_irreflexive(key@);
                        }
                    }
                }
            }
            match read_value_at(bytes, index[i].1) {
                Ok(v) => Ok(Some(v)),
                Err(e) => Err(e),
            }
        },
    }
}

/// The `count` records of `b` from `pos` on, read in full.
pub open spec fn read_entries(b: Seq<u8>, pos: int, count: nat) -> Result<
    Seq<(Seq<u8>, Option<Seq<u8>>)>,
    SstError,
>
    decreases count,
{
    if count == 0 {
        Ok(Seq::empty())
    } else if pos + 9 > b.len() {
        Err(SstError::Truncated)
    } else {
        let kl = u32_at(b, pos) as int;
        let vl = u32_at(b, pos + 4) as int;
        let tomb = b[pos + 8] != 0;
        let key = b.subrange(pos + 9, pos + 9 + kl);
        if pos + 9 + kl > b.len() {
            Err(SstError::Truncated)
        } else if tomb {
            match read_entries(b, pos + 9 + kl, (count - 1) as nat) {
                Ok(rest) => Ok(seq![(key, None::<Seq<u8>>)] + rest),
                Err(e) => Err(e),
            }
        } else if pos + 9 + kl + vl > b.len() {
            Err(SstError::Truncated)
        } else {
            match read_entries(b, pos + 9 + kl + vl, (count - 1) as nat) {
                Ok(rest) => Ok(seq![(key, Some(b.subrange(pos + 9 + kl, pos + 9 + kl + vl)))] + rest),
                Err(e) => Err(e),
            }
        }
    }
}

/// Reads the first `count` records of a table's bytes.
pub fn all_entries(bytes: &[u8], count: usize) -> (r: Result<Vec<KeyValuePair>, SstError>)
    ensures
        match read_entries(bytes@, 0, count as nat) {
            Ok(es) => r matches Ok(v) && v@.map_values(|e: KeyValuePair| entry_view(e)) == es,
            Err(e) => r == Err::<Vec<KeyValuePair>, SstError>(e),
        },
{
    assert(bytes@.len() == bytes.len());
    let n = bytes.len();
    let mut pos: usize = 0;
    let mut left: usize = count;
    let mut out: Vec<KeyValuePair> = Vec::new();
    while left > 0
        invariant
            n == bytes@.len(),
            pos <= n,
            match read_entries(bytes@, pos as int, left as nat) {
                Ok(rest) => match read_entries(bytes@, 0, count as nat) {
                    Ok(all) => out@.map_values(|e: KeyValuePair| entry_view(e)) + rest == all,
                    Err(_) => false,
                },
                Err(e) => read_entries(bytes@, 0, count as nat) == Err::<Seq<(Seq<u8>, Option<Seq<u8>>)>, SstError>(e),
            },
        decreases left,
    {
        let ghost before = out@.map_values(|e: KeyValuePair| entry_view(e));
        if n - pos < 9 {
            assert(read_entries(bytes@, pos as int, left as nat) == Err::<Seq<(Seq<u8>, Option<Seq<u8>>)>, SstError>(SstError::Truncated));
            return Err(SstError::Truncated);
        }
        let kl = read_u32(bytes, pos) as usize;
        let vl = read_u32(bytes, pos + 4) as usize;
        let tomb = bytes[pos + 8] != 0;
        if n - pos - 9 < kl {
            assert(read_entries(bytes@, pos as int, left as nat) == Err::<Seq<(Seq<u8>, Option<Seq<u8>>)>, SstError>(SstError::Truncated));
            return Err(SstError::Truncated);
        }
        let key = copy_range(bytes, pos + 9, pos + 9 + kl);
        let next;
        let value;
        if tomb {
            value = None;
            next = pos + 9 + kl;
        } else {
            if n - pos - 9 - kl < vl {
                assert(read_entries(bytes@, pos as int, left as nat) == Err::<Seq<(Seq<u8>, Option<Seq<u8>>)>, SstError>(SstError::Truncated));
                return Err(SstError::Truncated);
            }
            value = Some(copy_range(bytes, pos + 9 + kl, pos + 9 + kl + vl));
            next = pos + 9 + kl + vl;
        }
        let ghost e = (key, value);
        out.push((key, value));
        proof {
            let ent = entry_view(e);
            match read_entries(bytes@, next as int, (left - 1) as nat) {
                Ok(rest) => {
                    assert(read_entries(bytes@, pos as int, left as nat) == Ok::<Seq<(Seq<u8>, Option<Seq<u8>>)>, SstError>(seq![ent] + rest));
                    assert(out@.map_values(|e: KeyValuePair| entry_view(e)) =~= before.push(ent));
                    assert(before.push(ent) + rest =~= before + (seq![ent] + rest));
                },
                Err(er) => {
                    assert(read_entries(bytes@, pos as int, left as nat) == Err::<Seq<(Seq<u8>, Option<Seq<u8>>)>, SstError>(er));
                },
            }
        }
        pos = next;
        left = left - 1;
    }
    proof {
        assert(out@.map_values(|e: KeyValuePair| entry_view(e)) + Seq::<(Seq<u8>, Option<Seq<u8>>)>::empty() =~= out@.map_values(|e: KeyValuePair| entry_view(e)));
    }
    Ok(out)
}


/// Entries whose key and value lengths fit their length fields and the limits a reader
/// accepts, and whose count fits the footer.
pub open spec fn storable(es: Seq<(Seq<u8>, Option<Seq<u8>>)>) -> bool {
    &&& es.len() <= u32::MAX
    &&& forall|i: int|
        0 <= i < es.len() ==> #[trigger] es[i].0.len() <= MAX_KEY_LEN && match es[i].1 {
            Some(v) => v.len() <= MAX_VALUE_LEN,
            None => true,
        }
}

/// The index a table of `es` holds: each key with the position of its record.
pub open spec fn index_entries(es: Seq<(Seq<u8>, Option<Seq<u8>>)>) -> Seq<(Seq<u8>, u64)> {
    Seq::new(es.len(), |i: int| (es[i].0, records(es.take(i)).len() as u64))
}

/// The index bytes of the `i`-th entry.
pub open spec fn index_item(es: Seq<(Seq<u8>, Option<Seq<u8>>)>, i: int) -> Seq<u8> {
    be32(es[i].0.len() as u32) + es[i].0 + be64(records(es.take(i)).len() as u64)
}

proof fn lemma_u32_window(b: Seq<u8>, pos: int, x: u32)
    requires
        0 <= pos,
        pos + 4 <= b.len(),
        b.subrange(pos, pos + 4) == be32(x),
    ensures
        u32_at(b, pos) == x,
{
    let pre = b.subrange(0, pos);
    let rest = b.subrange(pos + 4, b.len() as int);
    assert(b =~= pre + be32(x) + rest);
    lemma_be32_roundtrip(x, rest, pre);
}

proof fn lemma_u64_window(b: Seq<u8>, pos: int, x: u64)
    requires
        0 <= pos,
        pos + 8 <= b.len(),
        b.subrange(pos, pos + 8) == be64(x),
    ensures
        u64_at(b, pos) == x,
{
    let pre = b.subrange(0, pos);
    let rest = b.subrange(pos + 8, b.len() as int);
    assert(b =~= pre + be64(x) + rest);
    lemma_be64_roundtrip(x, rest, pre);
}

/// The records split into the first record and the records of the rest.
proof fn lemma_records_cons(es: Seq<(Seq<u8>, Option<Seq<u8>>)>)
    requires
        es.len() > 0,
    ensures
        records(es) == record(es[0].0, es[0].1) + records(es.drop_first()),
    decreases es.len(),
{
    if es.len() == 1 {
        assert(es.drop_last() =~= Seq::<(Seq<u8>, Option<Seq<u8>>)>::empty());
        assert(es.drop_first() =~= Seq::<(Seq<u8>, Option<Seq<u8>>)>::empty());
        assert(records(es) =~= record(es[0].0, es[0].1) + records(es.drop_first()));
    } else {
        lemma_records_cons(es.drop_last());
        assert(es.drop_last().drop_first() =~= es.drop_first().drop_last());
        assert(records(es) =~= record(es[0].0, es[0].1) + records(es.drop_first()));
    }
}

/// The records of the first `m` entries begin the records of all of them; likewise the index.
proof fn lemma_prefixes(es: Seq<(Seq<u8>, Option<Seq<u8>>)>, m: int)
    requires
        0 <= m <= es.len(),
    ensures
        records(es.take(m)).len() <= records(es).len(),
        records(es).subrange(0, records(es.take(m)).len() as int) == records(es.take(m)),
        index_block(es.take(m)).len() <= index_block(es).len(),
        index_block(es).subrange(0, index_block(es.take(m)).len() as int) == index_block(es.take(m)),
    decreases es.len() - m,
{
    if m == es.len() {
        assert(es.take(m) =~= es);
        assert(records(es).subrange(0, records(es).len() as int) =~= records(es));
        assert(index_block(es).subrange(0, index_block(es).len() as int) =~= index_block(es));
    } else {
        let d = es.drop_last();
        lemma_prefixes(d, m);
        assert(d.take(m) =~= es.take(m));
        assert(records(es).subrange(0, records(es.take(m)).len() as int) =~= records(d).subrange(
            0,
            records(es.take(m)).len() as int,
        ));
        assert(index_block(es).subrange(0, index_block(es.take(m)).len() as int) =~= index_block(
            d,
        ).subrange(0, index_block(es.take(m)).len() as int));
    }
}

/// The fields of a record read where it stands.
proof fn lemma_record_window(b: Seq<u8>, pos: int, k: Seq<u8>, v: Option<Seq<u8>>)
    requires
        0 <= pos,
        pos + record(k, v).len() <= b.len(),
        b.subrange(pos, pos + record(k, v).len()) == record(k, v),
        k.len() <= u32::MAX,
        v matches Some(x) ==> x.len() <= u32::MAX,
    ensures
        u32_at(b, pos) as int == k.len(),
        b.subrange(pos + 9, pos + 9 + k.len()) == k,
        match v {
            Some(x) => b[pos + 8] == 0 && u32_at(b, pos + 4) as int == x.len() && record(k, v).len()
                == 9 + k.len() + x.len() && b.subrange(pos + 9 + k.len(), pos + 9 + k.len() + x.len())
                == x,
            None => b[pos + 8] == 1 && u32_at(b, pos + 4) == 0 && record(k, v).len() == 9 + k.len(),
        },
{
    let w = record(k, v);
    assert(b.subrange(pos, pos + 4) =~= be32(k.len() as u32)) by {
        assert forall|i: int| 0 <= i < 4 implies #[trigger] b.subrange(pos, pos + 4)[i] == be32(k.len() as u32)[i] by {
            assert(b.subrange(pos, pos + 4)[i] == b.subrange(pos, pos + w.len())[i]);
        }
    }
    lemma_u32_window(b, pos, k.len() as u32);
    assert(b.subrange(pos + 9, pos + 9 + k.len()) =~= k) by {
        assert forall|i: int| 0 <= i < k.len() implies #[trigger] b.subrange(pos + 9, pos + 9 + k.len())[i] == k[i] by {
            assert(b.subrange(pos + 9, pos + 9 + k.len())[i] == b.subrange(pos, pos + w.len())[9 + i]);
        }
    }
    assert(b[pos + 8] == b.subrange(pos, pos + w.len())[8]);
    match v {
        Some(x) => {
            assert(b.subrange(pos + 4, pos + 8) =~= be32(x.len() as u32)) by {
                assert forall|i: int| 0 <= i < 4 implies #[trigger] b.subrange(pos + 4, pos + 8)[i] == be32(x.len() as u32)[i] by {
                    assert(b.subrange(pos + 4, pos + 8)[i] == b.subrange(pos, pos + w.len())[4 + i]);
                }
            }
            lemma_u32_window(b, pos + 4, x.len() as u32);
            assert(b.subrange(pos + 9 + k.len(), pos + 9 + k.len() + x.len()) =~= x) by {
                assert forall|i: int| 0 <= i < x.len() implies #[trigger] b.subrange(pos + 9 + k.len(), pos + 9 + k.len() + x.len())[i] == x[i] by {
                    assert(b.subrange(pos + 9 + k.len(), pos + 9 + k.len() + x.len())[i] == b.subrange(pos, pos + w.len())[9 + k.len() + i]);
                }
            }
        },
        None => {
            assert(b.subrange(pos + 4, pos + 8) =~= be32(0)) by {
                assert forall|i: int| 0 <= i < 4 implies #[trigger] b.subrange(pos + 4, pos + 8)[i] == be32(0)[i] by {
                    assert(b.subrange(pos + 4, pos + 8)[i] == b.subrange(pos, pos + w.len())[4 + i]);
                }
            }
            lemma_u32_window(b, pos + 4, 0);
        },
    }
}

/// A window of `b` holding `x + y` holds `x` and then `y`.
proof fn lemma_split_window(b: Seq<u8>, pos: int, x: Seq<u8>, y: Seq<u8>)
    requires
        0 <= pos,
        pos + x.len() + y.len() <= b.len(),
        b.subrange(pos, pos + x.len() + y.len()) == x + y,
    ensures
        b.subrange(pos, pos + x.len()) == x,
        b.subrange(pos + x.len(), pos + x.len() + y.len()) == y,
{
    assert(b.subrange(pos, pos + x.len()) =~= x) by {
        assert forall|i: int| 0 <= i < x.len() implies #[trigger] b.subrange(pos, pos + x.len())[i] == x[i] by {
            assert(b.subrange(pos, pos + x.len())[i] == b.subrange(pos, pos + x.len() + y.len())[i]);
        }
    }
    assert(b.subrange(pos + x.len(), pos + x.len() + y.len()) =~= y) by {
        assert forall|i: int| 0 <= i < y.len() implies #[trigger] b.subrange(pos + x.len(), pos + x.len() + y.len())[i] == y[i] by {
            assert(b.subrange(pos + x.len(), pos + x.len() + y.len())[i] == b.subrange(pos, pos + x.len() + y.len())[x.len() + i]);
        }
    }
}

/// Reading the records of `es` where they stand gives `es` back.
proof fn lemma_read_records(b: Seq<u8>, pos: int, es: Seq<(Seq<u8>, Option<Seq<u8>>)>)
    requires
        storable(es),
        0 <= pos,
        pos + records(es).len() <= b.len(),
        b.subrange(pos, pos + records(es).len()) == records(es),
    ensures
        read_entries(b, pos, es.len() as nat) == Ok::<Seq<(Seq<u8>, Option<Seq<u8>>)>, SstError>(es),
    decreases es.len(),
{
    if es.len() > 0 {
        lemma_records_cons(es);
        let k = es[0].0;
        let v = es[0].1;
        let rest = es.drop_first();
        let r0 = record(k, v);
        assert(k.len() <= MAX_KEY_LEN);
        lemma_split_window(b, pos, r0, records(rest));
        lemma_record_window(b, pos, k, v);
        assert(storable(rest)) by {
            assert forall|i: int| 0 <= i < rest.len() implies #[trigger] rest[i].0.len() <= MAX_KEY_LEN && match rest[i].1 {
                Some(v) => v.len() <= MAX_VALUE_LEN,
                None => true,
            } by {
                assert(rest[i] == es[i + 1]);
            }
        }
        lemma_read_records(b, pos + r0.len(), rest);
        assert(es =~= seq![(k, v)] + rest);
    } else {
        assert(es =~= Seq::<(Seq<u8>, Option<Seq<u8>>)>::empty());
    }
}


/// A window of `b` holding `x` holds each prefix of `x`.
proof fn lemma_prefix_window(b: Seq<u8>, pos: int, x: Seq<u8>, m: int)
    requires
        0 <= pos,
        0 <= m <= x.len(),
        pos + x.len() <= b.len(),
        b.subrange(pos, pos + x.len()) == x,
    ensures
        b.subrange(pos, pos + m) == x.subrange(0, m),
{
    assert(b.subrange(pos, pos + m) =~= x.subrange(0, m)) by {
        assert forall|i: int| 0 <= i < m implies #[trigger] b.subrange(pos, pos + m)[i] == x.subrange(0, m)[i] by {
            assert(b.subrange(pos, pos + m)[i] == b.subrange(pos, pos + x.len())[i]);
        }
    }
}

/// Reading the index of `es` where it stands, from its `j`-th item on, gives the index
/// entries from `j` on.
proof fn lemma_read_index_from(b: Seq<u8>, start: int, es: Seq<(Seq<u8>, Option<Seq<u8>>)>, j: int)
    requires
        storable(es),
        records(es).len() <= u64::MAX,
        0 <= start,
        start + index_block(es).len() <= b.len(),
        b.subrange(start, start + index_block(es).len()) == index_block(es),
        0 <= j <= es.len(),
    ensures
        read_index(b, start + index_block(es.take(j)).len(), (es.len() - j) as nat) == Ok::<
            Seq<(Seq<u8>, u64)>,
            SstError,
        >(index_entries(es).skip(j)),
    decreases es.len() - j,
{
    if j < es.len() {
        let t0 = es.take(j);
        let t1 = es.take(j + 1);
        let k = es[j].0;
        let item = index_item(es, j);
        assert(t1.drop_last() =~= t0);
        assert(index_block(t1) =~= index_block(t0) + item);
        lemma_prefixes(es, j + 1);
        lemma_prefixes(es, j);
        lemma_prefix_window(b, start, index_block(es), index_block(t1).len() as int);
        lemma_split_window(b, start, index_block(t0), item);
        let p = start + index_block(t0).len();
        assert(k.len() <= MAX_KEY_LEN);
        let kp = records(t0).len() as u64;
        assert(item =~= be32(k.len() as u32) + (k + be64(kp)));
        lemma_split_window(b, p, be32(k.len() as u32), k + be64(kp));
        lemma_split_window(b, p + 4, k, be64(kp));
        lemma_u32_window(b, p, k.len() as u32);
        lemma_u64_window(b, p + 4 + k.len(), kp);
        lemma_read_index_from(b, start, es, j + 1);
        assert(index_entries(es).skip(j) =~= seq![(k, kp)] + index_entries(es).skip(j + 1));
    } else {
        assert(index_entries(es).skip(j) =~= Seq::<(Seq<u8>, u64)>::empty());
    }
}

/// The record of the `i`-th entry, read where the records stand, holds its value.
proof fn lemma_value_of_entry(b: Seq<u8>, pos: int, es: Seq<(Seq<u8>, Option<Seq<u8>>)>, i: int)
    requires
        storable(es),
        0 <= pos,
        pos + records(es).len() <= b.len(),
        b.subrange(pos, pos + records(es).len()) == records(es),
        0 <= i < es.len(),
    ensures
        value_at(b, pos + records(es.take(i)).len()) == Ok::<Option<Seq<u8>>, SstError>(es[i].1),
{
    let t0 = es.take(i);
    let t1 = es.take(i + 1);
    assert(t1.drop_last() =~= t0);
    assert(records(t1) =~= records(t0) + record(es[i].0, es[i].1));
    lemma_prefixes(es, i + 1);
    lemma_prefix_window(b, pos, records(es), records(t1).len() as int);
    lemma_split_window(b, pos, records(t0), record(es[i].0, es[i].1));
    assert(es[i].0.len() <= MAX_KEY_LEN);
    lemma_record_window(b, pos + records(t0).len(), es[i].0, es[i].1);
}

/// Where the parts of a table stand in its bytes.
proof fn lemma_table_parts(es: Seq<(Seq<u8>, Option<Seq<u8>>)>)
    requires
        es.len() <= u32::MAX,
        table_bytes(es).len() <= u64::MAX,
    ensures
        ({
            let t = table_bytes(es);
            let r = records(es);
            let ix = index_block(es);
            &&& t.len() == r.len() + ix.len() + 20
            &&& t.subrange(0, r.len() as int) == r
            &&& t.subrange(r.len() as int, (r.len() + ix.len()) as int) == ix
            &&& u64_at(t, (r.len() + ix.len()) as int) == r.len() as u64
            &&& u32_at(t, (r.len() + ix.len() + 8) as int) == es.len() as u32
            &&& t.subrange(t.len() - 8, t.len() as int) == magic()
        }),
{
    let r = records(es);
    let ix = index_block(es);
    let t = table_bytes(es);
    let f = be64(r.len() as u64) + (be32(es.len() as u32) + magic());
    assert(t =~= r + (ix + f));
    assert(t.subrange(0, t.len() as int) =~= t);
    lemma_split_window(t, 0, r, ix + f);
    lemma_split_window(t, r.len() as int, ix, f);
    let fp = (r.len() + ix.len()) as int;
    lemma_split_window(t, fp, be64(r.len() as u64), be32(es.len() as u32) + magic());
    lemma_split_window(t, fp + 8, be32(es.len() as u32), magic());
    lemma_u64_window(t, fp, r.len() as u64);
    lemma_u32_window(t, fp + 8, es.len() as u32);
}

/// Reading back a table written from `es` gives what was written: the footer names the
/// index position and the entry count, the index lists every key with the position of its
/// record, each of those positions holds the entry's value or deletion, and the records
/// read in order are `es` again.
pub proof fn lemma_table_roundtrip(es: Seq<(Seq<u8>, Option<Seq<u8>>)>)
    requires
        storable(es),
        table_bytes(es).len() <= u64::MAX,
    ensures
        footer_of(table_bytes(es)) == Ok::<(u64, u32), SstError>(
            (records(es).len() as u64, es.len() as u32),
        ),
        read_index(table_bytes(es), records(es).len() as int, es.len() as nat) == Ok::<
            Seq<(Seq<u8>, u64)>,
            SstError,
        >(index_entries(es)),
        forall|i: int|
            0 <= i < es.len() ==> value_at(table_bytes(es), #[trigger] index_entries(es)[i].1 as int)
                == Ok::<Option<Seq<u8>>, SstError>(es[i].1),
        read_entries(table_bytes(es), 0, es.len() as nat) == Ok::<
            Seq<(Seq<u8>, Option<Seq<u8>>)>,
            SstError,
        >(es),
{
    let r = records(es);
    let t = table_bytes(es);
    lemma_table_parts(es);
    lemma_read_records(t, 0, es);
    assert(es.take(0) =~= Seq::<(Seq<u8>, Option<Seq<u8>>)>::empty());
    lemma_read_index_from(t, r.len() as int, es, 0);
    assert(index_entries(es).skip(0) =~= index_entries(es));
    assert forall|i: int| 0 <= i < es.len() implies value_at(t, #[trigger] index_entries(es)[i].1 as int)
        == Ok::<Option<Seq<u8>>, SstError>(es[i].1) by {
        lemma_prefixes(es, i);
        lemma_value_of_entry(t, 0, es, i);
    }
}

} // verus!
