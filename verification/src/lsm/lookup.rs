//! Reading a key through the layers of the store, newest first: the active in-memory table,
//! the one being flushed, then the table files from newest to oldest. The first layer that
//! knows the key decides, whether it holds a value or a deletion.
use vstd::prelude::*;

use crate::lsm::memtable::{value_view, MemTable};
use crate::lsm::sstable::{
    footer_of, index_entry_view, index_sorted, parse_footer, parse_index, read_index, table_get, value_at,
    SstError,
};

verus! {

/// A table file held in memory with its parsed index.
pub struct TableImage {
    pub bytes: Vec<u8>,
    pub index: Vec<(Vec<u8>, u64)>,
}

impl TableImage {
    /// Reads the footer and index of a table's bytes.
    pub fn open(bytes: Vec<u8>) -> (r: Result<TableImage, SstError>)
        ensures
            match footer_of(bytes@) {
                Err(e) => r == Err::<TableImage, SstError>(e),
                Ok((pos, count)) => match read_index(bytes@, pos as int, count as nat) {
                    Err(e) => r == Err::<TableImage, SstError>(e),
                    Ok(es) => r matches Ok(t) && t.bytes@ == bytes@
                        && t.index@.map_values(|e: (Vec<u8>, u64)| index_entry_view(e)) == es,
                },
            },
    {
        let (index_offset, count) = match parse_footer(bytes.as_slice()) {
            Ok(f) => f,
            Err(e) => {
                return Err(e);
            },
        };
        let index = match parse_index(bytes.as_slice(), index_offset, count) {
            Ok(ix) => ix,
            Err(e) => {
                return Err(e);
            },
        };
        Ok(TableImage { bytes, index })
    }
}

/// What table `t` says of `key`: nothing when its index lacks the key, else what the indexed
/// record holds (a value or a deletion) or why it cannot be read.
pub open spec fn table_says(t: TableImage, key: Seq<u8>) -> Result<Option<Option<Seq<u8>>>, SstError> {
    if exists|i: int| 0 <= i < t.index@.len() && #[trigger] t.index@[i].0@ == key {
        let i = choose|i: int| 0 <= i < t.index@.len() && #[trigger] t.index@[i].0@ == key;
        match value_at(t.bytes@, t.index@[i].1 as int) {
            Ok(v) => Ok(Some(v)),
            Err(e) => Err(e),
        }
    } else {
        Ok(None)
    }
}

/// What the tables from the `i`-th on say of `key`: the first that knows it decides.
pub open spec fn tables_say(tables: Seq<TableImage>, i: int, key: Seq<u8>) -> Result<Option<Seq<u8>>, SstError>
    decreases tables.len() - i,
{
    if i < 0 || i >= tables.len() {
        Ok(None)
    } else {
        match table_says(tables[i], key) {
            Ok(Some(v)) => Ok(v),
            Ok(None) => tables_say(tables, i + 1, key),
            Err(e) => Err(e),
        }
    }
}

/// What the store says of `key`.
pub open spec fn store_says(
    active: Map<Seq<u8>, Option<Seq<u8>>>,
    frozen: Option<Map<Seq<u8>, Option<Seq<u8>>>>,
    tables: Seq<TableImage>,
    key: Seq<u8>,
) -> Result<Option<Seq<u8>>, SstError> {
    if active.contains_key(key) {
        Ok(active[key])
    } else if frozen matches Some(f) && f.contains_key(key) {
        Ok(frozen->0[key])
    } else {
        tables_say(tables, 0, key)
    }
}

/// The value of an outcome, with byte vectors seen as sequences.
pub open spec fn found_view(r: Result<Option<Vec<u8>>, SstError>) -> Result<Option<Seq<u8>>, SstError> {
    match r {
        Ok(v) => Ok(value_view(v)),
        Err(e) => Err(e),
    }
}

/// Every table's index lists its keys in increasing order.
pub open spec fn indexes_sorted(tables: Seq<TableImage>) -> bool {
    forall|i: int| 0 <= i < tables.len() ==> index_sorted(#[trigger] tables[i].index@)
}

/// Looks `key` up through the layers, newest first.
pub fn layered_get(
    active: &MemTable,
    frozen: Option<&MemTable>,
    tables: &Vec<TableImage>,
    key: &[u8],
) -> (r: Result<Option<Vec<u8>>, SstError>)
    requires
        active.wf(),
        frozen matches Some(f) ==> f.wf(),
    ensures
        indexes_sorted(tables@) ==> found_view(r) == store_says(
            active@,
            match frozen {
                Some(f) => Some(f@),
                None => None,
            },
            tables@,
            key@,
        ),
{
    let ghost fz = match frozen {
        Some(f) => Some(f@),
        None => None,
    };
    match active.get(key) {
        Ok(Some(v)) => {
            return Ok(v);
        },
        _ => {},
    }
    match frozen {
        Some(f) => match f.get(key) {
            Ok(Some(v)) => {
                return Ok(v);
            },
            _ => {},
        },
        None => {},
    }
    let mut i: usize = 0;
    while i < tables.len()
        invariant
            i <= tables@.len(),
            fz == (match frozen {
                Some(f) => Some(f@),
                None => None::<Map<Seq<u8>, Option<Seq<u8>>>>,
            }),
            indexes_sorted(tables@) ==> store_says(active@, fz, tables@, key@) == tables_say(tables@, i as int, key@),
        decreases tables@.len() - i,
    {
        let t = &tables[i];
        let found = table_get(t.bytes.as_slice(), &t.index, key);
        proof {
            if indexes_sorted(tables@) {
                assert(index_sorted(tables@[i as int].index@));
                if exists|j: int| 0 <= j < t.index@.len() && #[trigger] t.index@[j].0@ == key@ {
                    let c = choose|j: int| 0 <= j < t.index@.len() && #[trigger] t.index@[j].0@ == key@;
                    assert(t.index@[c].0@ == key@);
                }
            }
        }
        match found {
            Ok(Some(v)) => {
                assert(indexes_sorted(tables@) ==> table_says(tables@[i as int], key@) == Ok::<Option<Option<Seq<u8>>>, SstError>(Some(value_view(v))));
                return Ok(v);
            },
            Ok(None) => {
                assert(indexes_sorted(tables@) ==> table_says(tables@[i as int], key@) == Ok::<Option<Option<Seq<u8>>>, SstError>(None));
            },
            Err(e) => {
                assert(indexes_sorted(tables@) ==> table_says(tables@[i as int], key@) == Err::<Option<Option<Seq<u8>>>, SstError>(e));
                return Err(e);
            },
        }
        i = i + 1;
    }
    Ok(None)
}

} // verus!
