//! The in-memory table: recent writes and deletions, kept in key order, with the number of
//! bytes they weigh.
use vstd::prelude::*;

use crate::lsm::order::{
    bytes_lt, compare_bytes, lemma_lt_asymmetric, lemma_lt_irreflexive, lemma_lt_total,
    lemma_lt_transitive,
};

verus! {

/// A key with its value, or with nothing when the key was deleted.
pub type KeyValuePair = (Vec<u8>, Option<Vec<u8>>);

/// The value of an entry as plain bytes.
pub open spec fn value_view(v: Option<Vec<u8>>) -> Option<Seq<u8>> {
    match v {
        Some(b) => Some(b@),
        None => None,
    }
}

/// The key at position `i`.
pub open spec fn key_at(s: Seq<KeyValuePair>, i: int) -> Seq<u8> {
    s[i].0@
}

/// The keys strictly increase.
pub open spec fn sorted_keys(s: Seq<KeyValuePair>) -> bool {
    forall|i: int, j: int| 0 <= i < j < s.len() ==> bytes_lt(key_at(s, i), key_at(s, j))
}

/// Some entry has key `k`.
pub open spec fn has_key(s: Seq<KeyValuePair>, k: Seq<u8>) -> bool {
    exists|i: int| 0 <= i < s.len() && key_at(s, i) == k
}

/// The map from key to value (or deletion) that the entries stand for.
pub open spec fn table_map(s: Seq<KeyValuePair>) -> Map<Seq<u8>, Option<Seq<u8>>> {
    Map::new(
        |k: Seq<u8>| has_key(s, k),
        |k: Seq<u8>| value_view(s[choose|i: int| 0 <= i < s.len() && key_at(s, i) == k].1),
    )
}

/// The bytes an entry weighs: its key and its value.
pub open spec fn entry_weight(e: KeyValuePair) -> int {
    e.0@.len() + match e.1 {
        Some(v) => v@.len() as int,
        None => 0int,
    }
}

/// The bytes all entries weigh.
pub open spec fn weight(s: Seq<KeyValuePair>) -> int
    decreases s.len(),
{
    if s.len() == 0 {
        0
    } else {
        weight(s.drop_last()) + entry_weight(s.last())
    }
}

/// The weight an entry for `k` with value `v` adds.
pub open spec fn pair_weight(k: Seq<u8>, v: Option<Seq<u8>>) -> int {
    k.len() + match v {
        Some(b) => b.len() as int,
        None => 0int,
    }
}

proof fn lemma_weight_nonneg(s: Seq<KeyValuePair>)
    ensures
        weight(s) >= 0,
    decreases s.len(),
{
    if s.len() > 0 {
        lemma_weight_nonneg(s.drop_last());
    }
}

proof fn lemma_weight_ge(s: Seq<KeyValuePair>, i: int)
    requires
        0 <= i < s.len(),
    ensures
        weight(s) >= entry_weight(s[i]),
    decreases s.len(),
{
    lemma_weight_nonneg(s.drop_last());
    if i < s.len() - 1 {
        lemma_weight_ge(s.drop_last(), i);
    }
}

proof fn lemma_weight_insert(s: Seq<KeyValuePair>, i: int, e: KeyValuePair)
    requires
        0 <= i <= s.len(),
    ensures
        weight(s.insert(i, e)) == weight(s) + entry_weight(e),
    decreases s.len(),
{
    if i == s.len() {
        assert(s.insert(i, e).drop_last() =~= s);
    } else {
        lemma_weight_insert(s.drop_last(), i, e);
        assert(s.insert(i, e).drop_last() =~= s.drop_last().insert(i, e));
    }
}

proof fn lemma_weight_update(s: Seq<KeyValuePair>, i: int, e: KeyValuePair)
    requires
        0 <= i < s.len(),
    ensures
        weight(s.update(i, e)) == weight(s) - entry_weight(s[i]) + entry_weight(e),
    decreases s.len(),
{
    if i == s.len() - 1 {
        assert(s.update(i, e).drop_last() =~= s.drop_last());
    } else {
        lemma_weight_update(s.drop_last(), i, e);
        assert(s.update(i, e).drop_last() =~= s.drop_last().update(i, e));
    }
}

pub proof fn lemma_value_at(s: Seq<KeyValuePair>, i: int)
    requires
        sorted_keys(s),
        0 <= i < s.len(),
    ensures
        table_map(s).contains_key(key_at(s, i)),
        table_map(s)[key_at(s, i)] == value_view(s[i].1),
{
    let k = key_at(s, i);
    assert(has_key(s, k));
    let j = choose|j: int| 0 <= j < s.len() && key_at(s, j) == k;
    if j < i {
        lemma_lt_irreflexive(k);
    } else if j > i {
        lemma_lt_irreflexive(k);
    }
}

/// `i` is where `k` is or would go in `s`, and `found` tells whether it is there.
pub open spec fn located(s: Seq<KeyValuePair>, k: Seq<u8>, i: int, found: bool) -> bool {
    &&& 0 <= i <= s.len()
    &&& forall|j: int| 0 <= j < i ==> bytes_lt(#[trigger] key_at(s, j), k)
    &&& found ==> i < s.len() && key_at(s, i) == k
    &&& !found ==> forall|j: int| i <= j < s.len() ==> bytes_lt(k, #[trigger] key_at(s, j))
}

proof fn lemma_located_map(s: Seq<KeyValuePair>, k: Seq<u8>, i: int, found: bool)
    requires
        sorted_keys(s),
        located(s, k, i, found),
    ensures
        found == has_key(s, k),
{
    if !found && has_key(s, k) {
        let a = choose|a: int| 0 <= a < s.len() && key_at(s, a) == k;
        lemma_lt_irreflexive(k);
    }
}

/// Where `key` is, or where it would go, in entries sorted by key.
pub fn locate_key(entries: &Vec<KeyValuePair>, key: &[u8]) -> (r: (usize, bool))
    requires
        sorted_keys(entries@),
    ensures
        located(entries@, key@, r.0 as int, r.1),
{
    let ghost s = entries@;
    let mut i: usize = 0;
    while i < entries.len()
        invariant
            s == entries@,
            sorted_keys(s),
            i <= s.len(),
            forall|j: int| 0 <= j < i ==> bytes_lt(#[trigger] key_at(s, j), key@),
        decreases s.len() - i,
    {
        let c = compare_bytes(entries[i].0.as_slice(), key);
        if c == 0 {
            return (i, true);
        }
        if c > 0 {
            proof {
                assert forall|j: int| i <= j < s.len() implies bytes_lt(key@, #[trigger] key_at(s, j)) by {
                    if j > i {
                        lemma_lt_transitive(key@, key_at(s, i as int), key_at(s, j));
                    }
                }
            }
            return (i, false);
        }
        i = i + 1;
    }
    (i, false)
}

/// Puts `value` under `key` at the place `locate_key` found, keeping the keys sorted.
pub fn upsert_at(entries: &mut Vec<KeyValuePair>, i: usize, found: bool, key: Vec<u8>, value: Option<Vec<u8>>)
    requires
        sorted_keys(old(entries)@),
        located(old(entries)@, key@, i as int, found),
    ensures
        sorted_keys(final(entries)@),
        table_map(final(entries)@) == table_map(old(entries)@).insert(key@, value_view(value)),
        final(entries)@ == if found {
            old(entries)@.update(i as int, (key, value))
        } else {
            old(entries)@.insert(i as int, (key, value))
        },
{
    let ghost s = entries@;
    let ghost k = key@;
    let ghost v = value_view(value);
    let e = (key, value);
    if found {
        entries.set(i, e);
        proof {
            let t = entries@;
            assert(forall|j: int| 0 <= j < t.len() ==> key_at(t, j) == key_at(s, j));
            assert(sorted_keys(t));
            assert forall|q: Seq<u8>| #[trigger] table_map(t).contains_key(q) <==> table_map(s).insert(k, v).contains_key(q) by {
                if has_key(t, q) {
                    let a = choose|a: int| 0 <= a < t.len() && key_at(t, a) == q;
                    assert(key_at(s, a) == q);
                }
                if has_key(s, q) {
                    let a = choose|a: int| 0 <= a < s.len() && key_at(s, a) == q;
                    assert(key_at(t, a) == q);
                }
            }
            assert forall|q: Seq<u8>| #[trigger] table_map(t).contains_key(q) implies table_map(t)[q] == table_map(s).insert(k, v)[q] by {
                let a = choose|a: int| 0 <= a < t.len() && key_at(t, a) == q;
                lemma_value_at(t, a);
                if a != i {
                    lemma_value_at(s, a);
                    assert(key_at(s, a) != k) by {
                        lemma_lt_irreflexive(k);
                    }
                }
            }
            assert(table_map(t) =~= table_map(s).insert(k, v));
        }
    } else {
        entries.insert(i, e);
        proof {
            let t = entries@;
            assert(forall|j: int| 0 <= j < i ==> key_at(t, j) == key_at(s, j));
            assert(forall|j: int| i < j < t.len() ==> key_at(t, j) == key_at(s, j - 1));
            assert(key_at(t, i as int) == k);
            assert forall|a: int, b: int| 0 <= a < b < t.len() implies bytes_lt(key_at(t, a), key_at(t, b)) by {
                if b < i {
                } else if b == i {
                } else if a < i {
                    lemma_lt_transitive(key_at(t, a), k, key_at(t, b));
                } else if a == i {
                } else {
                    assert(bytes_lt(key_at(s, a - 1), key_at(s, b - 1)));
                }
            }
            assert forall|q: Seq<u8>| #[trigger] table_map(t).contains_key(q) <==> table_map(s).insert(k, v).contains_key(q) by {
                if has_key(t, q) {
                    let a = choose|a: int| 0 <= a < t.len() && key_at(t, a) == q;
                    if a < i {
                        assert(key_at(s, a) == q);
                    } else if a > i {
                        assert(key_at(s, a - 1) == q);
                    }
                }
                if has_key(s, q) {
                    let a = choose|a: int| 0 <= a < s.len() && key_at(s, a) == q;
                    if a < i {
                        assert(key_at(t, a) == q);
                    } else {
                        assert(key_at(t, a + 1) == q);
                    }
                }
                if q == k {
                    assert(key_at(t, i as int) == q);
                }
            }
            assert forall|q: Seq<u8>| #[trigger] table_map(t).contains_key(q) implies table_map(t)[q] == table_map(s).insert(k, v)[q] by {
                let a = choose|a: int| 0 <= a < t.len() && key_at(t, a) == q;
                lemma_value_at(t, a);
                if a < i {
                    lemma_value_at(s, a);
                    assert(q != k) by {
                        lemma_lt_irreflexive(k);
                    }
                } else if a > i {
                    lemma_value_at(s, a - 1);
                    assert(q != k) by {
                        lemma_lt_irreflexive(k);
                    }
                }
            }
            assert(table_map(t) =~= table_map(s).insert(k, v));
        }
    }
}

/// Recent writes in key order, with their total weight.
pub struct MemTable {
    entries: Vec<KeyValuePair>,
    size_in_bytes: usize,
}

impl View for MemTable {
    type V = Map<Seq<u8>, Option<Seq<u8>>>;

    closed spec fn view(&self) -> Map<Seq<u8>, Option<Seq<u8>>> {
        table_map(self.entries@)
    }
}

impl MemTable {
    /// The entries are in key order and the recorded size is their weight.
    pub closed spec fn wf(&self) -> bool {
        &&& sorted_keys(self.entries@)
        &&& self.size_in_bytes == weight(self.entries@)
    }

    /// The recorded weight.
    pub closed spec fn weight_of(&self) -> int {
        self.size_in_bytes as int
    }

    /// An empty table.
    pub fn new() -> (r: Self)
        ensures
            r.wf(),
            r@ == Map::<Seq<u8>, Option<Seq<u8>>>::empty(),
            r.weight_of() == 0,
    {
        let r = MemTable { entries: Vec::new(), size_in_bytes: 0 };
        assert(table_map(r.entries@) =~= Map::<Seq<u8>, Option<Seq<u8>>>::empty());
        r
    }

    /// Where `key` is, or where it would go: the number of smaller keys, and whether the
    /// entry there has exactly `key`.
    fn locate(&self, key: &[u8]) -> (r: (usize, bool))
        requires
            sorted_keys(self.entries@),
        ensures
            located(self.entries@, key@, r.0 as int, r.1),
    {
        locate_key(&self.entries, key)
    }

    /// Puts `value` under `key`, or a deletion marker when `value` is `None`.
    fn store(&mut self, key: Vec<u8>, value: Option<Vec<u8>>)
        requires
            old(self).wf(),
            old(self).size_in_bytes + pair_weight(key@, value_view(value)) <= usize::MAX,
        ensures
            final(self).wf(),
            final(self)@ == old(self)@.insert(key@, value_view(value)),
            final(self).weight_of() == old(self).weight_of() - (if old(self)@.contains_key(key@) {
                pair_weight(key@, old(self)@[key@])
            } else {
                0
            }) + pair_weight(key@, value_view(value)),
    {
        let ghost s = self.entries@;
        let (i, found) = self.locate(key.as_slice());
        let klen = key.len();
        let vlen = match &value {
            Some(b) => b.len(),
            None => 0,
        };
        let ghost e = (key, value);
        proof {
            lemma_weight_nonneg(s);
            lemma_located_map(s, key@, i as int, found);
        }
        if found {
            let old_len = match &self.entries[i].1 {
                Some(b) => b.len(),
                None => 0,
            };
            proof {
                lemma_value_at(s, i as int);
                lemma_weight_ge(s, i as int);
                lemma_weight_update(s, i as int, e);
                assert(entry_weight(s[i as int]) == klen + old_len);
            }
            self.size_in_bytes = self.size_in_bytes - (klen + old_len);
        } else {
            proof {
                lemma_weight_insert(s, i as int, e);
            }
        }
        self.size_in_bytes = self.size_in_bytes + (klen + vlen);
        upsert_at(&mut self.entries, i, found, key, value);
    }

    /// Stores `value` under `key`; never fails.
    pub fn put(&mut self, key: Vec<u8>, value: Vec<u8>) -> (r: Result<(), &'static str>)
        requires
            old(self).wf(),
            old(self).weight_of() + key@.len() + value@.len() <= usize::MAX,
        ensures
            r is Ok,
            final(self).wf(),
            final(self)@ == old(self)@.insert(key@, Some(value@)),
            final(self).weight_of() == old(self).weight_of() - (if old(self)@.contains_key(key@) {
                pair_weight(key@, old(self)@[key@])
            } else {
                0
            }) + key@.len() + value@.len(),
    {
        self.store(key, Some(value));
        Ok(())
    }

    /// Marks `key` deleted; never fails.
    pub fn delete(&mut self, key: Vec<u8>) -> (r: Result<(), &'static str>)
        requires
            old(self).wf(),
            old(self).weight_of() + key@.len() <= usize::MAX,
        ensures
            r is Ok,
            final(self).wf(),
            final(self)@ == old(self)@.insert(key@, None),
            final(self).weight_of() == old(self).weight_of() - (if old(self)@.contains_key(key@) {
                pair_weight(key@, old(self)@[key@])
            } else {
                0
            }) + key@.len(),
    {
        self.store(key, None);
        Ok(())
    }

    /// What the table holds for `key`: `Some(Some(v))` for a value, `Some(None)` for a
    /// deletion, `None` when it knows nothing of the key; never fails.
    pub fn get(&self, key: &[u8]) -> (r: Result<Option<Option<Vec<u8>>>, &'static str>)
        requires
            self.wf(),
        ensures
            r matches Ok(found) && match found {
                Some(v) => self@.contains_key(key@) && value_view(v) == self@[key@],
                None => !self@.contains_key(key@),
            },
    {
        let (i, found) = self.locate(key);
        proof {
            lemma_located_map(self.entries@, key@, i as int, found);
        }
        if found {
            proof {
                lemma_value_at(self.entries@, i as int);
            }
            let v = match &self.entries[i].1 {
                Some(b) => Some(b.clone()),
                None => None,
            };
            Ok(Some(v))
        } else {
            Ok(None)
        }
    }

    /// The bytes the entries weigh.
    pub fn size(&self) -> (r: usize)
        ensures
            r == self.weight_of(),
    {
        self.size_in_bytes
    }

    /// The table holds no entry.
    pub fn is_empty(&self) -> (r: bool)
        requires
            self.wf(),
        ensures
            r == (self@.dom().len() == 0),
    {
        proof {
            if self.entries@.len() > 0 {
                lemma_value_at(self.entries@, 0);
                assert(self@.dom().contains(key_at(self.entries@, 0)));
                assert(self@.dom().finite()) by {
                    lemma_dom_finite(self.entries@);
                }
            } else {
                assert(self@.dom() =~= Set::<Seq<u8>>::empty());
            }
        }
        self.entries.len() == 0
    }

    /// Takes every entry out, in key order, and leaves the table empty.
    pub fn drain(&mut self) -> (r: Result<Vec<KeyValuePair>, &'static str>)
        requires
            old(self).wf(),
        ensures
            final(self).wf(),
            final(self)@ == Map::<Seq<u8>, Option<Seq<u8>>>::empty(),
            final(self).weight_of() == 0,
            r matches Ok(entries) && sorted_keys(entries@) && table_map(entries@) == old(self)@,
    {
        let mut entries = Vec::new();
        std::mem::swap(&mut entries, &mut self.entries);
        self.size_in_bytes = 0;
        assert(table_map(self.entries@) =~= Map::<Seq<u8>, Option<Seq<u8>>>::empty());
        Ok(entries)
    }
}

proof fn lemma_dom_finite(s: Seq<KeyValuePair>)
    ensures
        table_map(s).dom().finite(),
{
    let ks = s.map_values(|e: KeyValuePair| e.0@);
    assert forall|k: Seq<u8>| table_map(s).dom().contains(k) implies ks.to_set().contains(k) by {
        let a = choose|a: int| 0 <= a < s.len() && key_at(s, a) == k;
        assert(ks[a] == k);
        assert(ks.contains(k));
    }
    vstd::seq_lib::seq_to_set_is_finite(ks);
    vstd::set_lib::lemma_len_subset(table_map(s).dom(), ks.to_set());
}

/// A read gives back what the last write of its key left: the value after a put, the
/// deletion after a delete; a read of any other key gives what it gave before.
pub proof fn lemma_read_after_write(
    before: Map<Seq<u8>, Option<Seq<u8>>>,
    key: Seq<u8>,
    written: Option<Seq<u8>>,
    other: Seq<u8>,
)
    requires
        other != key,
    ensures
        before.insert(key, written).contains_key(key),
        before.insert(key, written)[key] == written,
        before.insert(key, written).contains_key(other) == before.contains_key(other),
        before.contains_key(other) ==> before.insert(key, written)[other] == before[other],
{
}

/// A write to an in-memory table, as plain values.
pub enum TableOp {
    Put(Seq<u8>, Seq<u8>),
    Delete(Seq<u8>),
    Drain,
}

/// The table's map after `op`, as `put`, `delete` and `drain` state it.
pub open spec fn apply_op(m: Map<Seq<u8>, Option<Seq<u8>>>, op: TableOp) -> Map<Seq<u8>, Option<Seq<u8>>> {
    match op {
        TableOp::Put(k, v) => m.insert(k, Some(v)),
        TableOp::Delete(k) => m.insert(k, None),
        TableOp::Drain => Map::empty(),
    }
}

/// The map of a new table after each of `ops` in turn.
pub open spec fn replay(ops: Seq<TableOp>) -> Map<Seq<u8>, Option<Seq<u8>>>
    decreases ops.len(),
{
    if ops.len() == 0 {
        Map::empty()
    } else {
        apply_op(replay(ops.drop_last()), ops.last())
    }
}

/// What a read of `k` gives after `ops`, found from the last write: the value of the last
/// put of `k`, a deletion after a delete of `k`, nothing when `k` was not written since the
/// table was made or last drained.
pub open spec fn last_write(ops: Seq<TableOp>, k: Seq<u8>) -> Option<Option<Seq<u8>>>
    decreases ops.len(),
{
    if ops.len() == 0 {
        None
    } else {
        match ops.last() {
            TableOp::Put(k2, v) => if k2 == k {
                Some(Some(v))
            } else {
                last_write(ops.drop_last(), k)
            },
            TableOp::Delete(k2) => if k2 == k {
                Some(None)
            } else {
                last_write(ops.drop_last(), k)
            },
            TableOp::Drain => None,
        }
    }
}

/// Over any history of puts, deletes and drains, a read gives what the last write of its key
/// since the last drain left: `get` returns `Some(Some(v))` after a put of `v`, `Some(None)`
/// after a delete, and `None` when the key was not written.
pub proof fn lemma_read_over_history(ops: Seq<TableOp>, k: Seq<u8>)
    ensures
        (if replay(ops).contains_key(k) {
            Some(replay(ops)[k])
        } else {
            None
        }) == last_write(ops, k),
    decreases ops.len(),
{
    if ops.len() > 0 {
        lemma_read_over_history(ops.drop_last(), k);
    }
}

} // verus!
