//! Merging sorted tables into one.
use vstd::prelude::*;

use crate::lsm::memtable::{
    has_key, key_at, lemma_value_at, locate_key, sorted_keys, table_map, upsert_at, value_view,
    KeyValuePair,
};
use crate::lsm::order::bytes_lt;

verus! {

/// `m` after each entry of `es` in turn.
pub open spec fn apply_entries(m: Map<Seq<u8>, Option<Seq<u8>>>, es: Seq<KeyValuePair>) -> Map<
    Seq<u8>,
    Option<Seq<u8>>,
>
    decreases es.len(),
{
    if es.len() == 0 {
        m
    } else {
        apply_entries(m, es.drop_last()).insert(es.last().0@, value_view(es.last().1))
    }
}

/// The tables, given newest first, laid over one another: a newer entry hides an older one.
pub open spec fn overlay(tables: Seq<Vec<KeyValuePair>>) -> Map<Seq<u8>, Option<Seq<u8>>>
    decreases tables.len(),
{
    if tables.len() == 0 {
        Map::empty()
    } else {
        apply_entries(overlay(tables.drop_first()), tables[0]@)
    }
}

/// The map without its deletions.
pub open spec fn without_deletions(m: Map<Seq<u8>, Option<Seq<u8>>>) -> Map<Seq<u8>, Option<Seq<u8>>> {
    Map::new(|k: Seq<u8>| m.contains_key(k) && m[k] is Some, |k: Seq<u8>| m[k])
}

fn copy_entry(e: &KeyValuePair) -> (r: KeyValuePair)
    ensures
        r.0@ == e.0@,
        value_view(r.1) == value_view(e.1),
{
    let v = match &e.1 {
        Some(b) => Some(b.clone()),
        None => None,
    };
    (e.0.clone(), v)
}

/// Merges tables given newest first into one sorted table: a newer entry for a key replaces
/// an older one, and a major merge drops the deletions.
pub fn merge_tables(tables: &Vec<Vec<KeyValuePair>>, is_major: bool) -> (r: Vec<KeyValuePair>)
    ensures
        sorted_keys(r@),
        table_map(r@) == if is_major {
            without_deletions(overlay(tables@))
        } else {
            overlay(tables@)
        },
{
    let mut acc: Vec<KeyValuePair> = Vec::new();
    let n = tables.len();
    let mut t: usize = n;
    assert(table_map(acc@) =~= Map::<Seq<u8>, Option<Seq<u8>>>::empty());
    assert(tables@.skip(n as int) =~= Seq::<Vec<KeyValuePair>>::empty());
    while t > 0
        invariant
            n == tables@.len(),
            t <= n,
            sorted_keys(acc@),
            table_map(acc@) == overlay(tables@.skip(t as int)),
        decreases t,
    {
        t = t - 1;
        let table = &tables[t];
        let ghost base = table_map(acc@);
        let mut i: usize = 0;
        while i < table.len()
            invariant
                i <= table@.len(),
                sorted_keys(acc@),
                table_map(acc@) == apply_entries(base, table@.take(i as int)),
            decreases table@.len() - i,
        {
            let (k, v) = copy_entry(&table[i]);
            let (pos, found) = locate_key(&acc, k.as_slice());
            upsert_at(&mut acc, pos, found, k, v);
            proof {
                assert(table@.take(i + 1).drop_last() =~= table@.take(i as int));
            }
            i = i + 1;
        }
        proof {
            assert(table@.take(i as int) =~= table@);
            assert(tables@.skip(t as int).drop_first() =~= tables@.skip(t + 1));
        }
    }
    assert(tables@.skip(0) =~= tables@);
    if !is_major {
        return acc;
    }
    let ghost full = acc@;
    let mut out: Vec<KeyValuePair> = Vec::new();
    let mut i: usize = 0;
    assert(full.take(0) =~= Seq::<KeyValuePair>::empty());
    assert(table_map(out@) =~= without_deletions(table_map(full.take(0))));
    while i < acc.len()
        invariant
            full == acc@,
            sorted_keys(full),
            i <= full.len(),
            sorted_keys(out@),
            forall|a: int| 0 <= a < out@.len() ==> has_key(full.take(i as int), #[trigger] key_at(out@, a)),
            table_map(out@) == without_deletions(table_map(full.take(i as int))),
        decreases full.len() - i,
    {
        let ghost k = key_at(full, i as int);
        proof {
            let ft = full.take(i as int);
            assert forall|a: int, b: int| 0 <= a < b < ft.len() implies bytes_lt(key_at(ft, a), key_at(ft, b)) by {
                assert(key_at(ft, a) == key_at(full, a));
                assert(key_at(ft, b) == key_at(full, b));
            }
            assert forall|a: int| 0 <= a < ft.len() implies bytes_lt(#[trigger] key_at(ft, a), full[i as int].0@) by {
                assert(key_at(ft, a) == key_at(full, a));
            }
            lemma_table_map_push(full.take(i as int), full[i as int]);
            assert(full.take(i + 1) =~= full.take(i as int).push(full[i as int]));
            assert forall|a: int| 0 <= a < out@.len() implies bytes_lt(#[trigger] key_at(out@, a), k) by {
                let q = key_at(out@, a);
                let b = choose|b: int| 0 <= b < i && key_at(full.take(i as int), b) == q;
                assert(key_at(full, b) == q);
            }
        }
        if acc[i].1.is_some() {
            let e = copy_entry(&acc[i]);
            let ghost o = out@;
            out.push(e);
            proof {
                lemma_table_map_push(o, e);
                assert forall|a: int, b: int| 0 <= a < b < out@.len() implies bytes_lt(key_at(out@, a), key_at(out@, b)) by {
                    if b == o.len() {
                        assert(key_at(out@, a) == key_at(o, a));
                    } else {
                        assert(key_at(out@, a) == key_at(o, a));
                        assert(key_at(out@, b) == key_at(o, b));
                    }
                }
                assert forall|a: int| 0 <= a < out@.len() implies has_key(full.take(i + 1), #[trigger] key_at(out@, a)) by {
                    if a < o.len() {
                        assert(key_at(out@, a) == key_at(o, a));
                        let b = choose|b: int| 0 <= b < i && key_at(full.take(i as int), b) == key_at(o, a);
                        assert(key_at(full.take(i + 1), b) == key_at(o, a));
                    } else {
                        assert(key_at(full.take(i + 1), i as int) == k);
                    }
                }
                assert(table_map(out@) =~= without_deletions(table_map(full.take(i + 1))));
            }
        } else {
            proof {
                assert(!has_key(full.take(i as int), k)) by {
                    if has_key(full.take(i as int), k) {
                        let b = choose|b: int| 0 <= b < i && key_at(full.take(i as int), b) == k;
                        assert(key_at(full, b) == k);
                        assert(bytes_lt(key_at(full, b), key_at(full, i as int)));
                        crate::lsm::order::lemma_lt_irreflexive(k);
                    }
                }
                assert forall|a: int| 0 <= a < out@.len() implies has_key(full.take(i + 1), #[trigger] key_at(out@, a)) by {
                    let b = choose|b: int| 0 <= b < i && key_at(full.take(i as int), b) == key_at(out@, a);
                    assert(key_at(full.take(i + 1), b) == key_at(out@, a));
                }
                assert(table_map(out@) =~= without_deletions(table_map(full.take(i + 1))));
            }
        }
        i = i + 1;
    }
    assert(full.take(i as int) =~= full);
    out
}

/// Appending an entry whose key is above every key adds that key to the map.
proof fn lemma_table_map_push(s: Seq<KeyValuePair>, e: KeyValuePair)
    requires
        sorted_keys(s),
        forall|a: int| 0 <= a < s.len() ==> bytes_lt(#[trigger] key_at(s, a), e.0@),
    ensures
        sorted_keys(s.push(e)),
        table_map(s.push(e)) == table_map(s).insert(e.0@, value_view(e.1)),
{
    let t = s.push(e);
    let k = e.0@;
    assert forall|a: int, b: int| 0 <= a < b < t.len() implies bytes_lt(key_at(t, a), key_at(t, b)) by {
        assert(key_at(t, a) == key_at(s, a));
        if b < s.len() {
            assert(key_at(t, b) == key_at(s, b));
        }
    }
    assert forall|q: Seq<u8>| #[trigger] table_map(t).contains_key(q) <==> table_map(s).insert(k, value_view(e.1)).contains_key(q) by {
        if has_key(t, q) {
            let a = choose|a: int| 0 <= a < t.len() && key_at(t, a) == q;
            if a < s.len() {
                assert(key_at(s, a) == q);
            }
        }
        if has_key(s, q) {
            let a = choose|a: int| 0 <= a < s.len() && key_at(s, a) == q;
            assert(key_at(t, a) == q);
        }
        if q == k {
            assert(key_at(t, s.len() as int) == q);
        }
    }
    assert forall|q: Seq<u8>| #[trigger] table_map(t).contains_key(q) implies table_map(t)[q] == table_map(s).insert(k, value_view(e.1))[q] by {
        let a = choose|a: int| 0 <= a < t.len() && key_at(t, a) == q;
        lemma_value_at(t, a);
        if a < s.len() {
            assert(key_at(s, a) == q);
            lemma_value_at(s, a);
            crate::lsm::order::lemma_lt_irreflexive(k);
        }
    }
    assert(table_map(t) =~= table_map(s).insert(k, value_view(e.1)));
}

/// What a read of `k` sees in a table laid out as `m`: the value, or nothing for a deletion
/// or an absent key.
pub open spec fn read_of(m: Map<Seq<u8>, Option<Seq<u8>>>, k: Seq<u8>) -> Option<Seq<u8>> {
    if m.contains_key(k) {
        m[k]
    } else {
        None
    }
}

/// A major merge changes no read: every key reads in the merged table as it reads through
/// the tables laid over one another, and the merged table holds no deletion.
pub proof fn lemma_major_merge_keeps_reads(tables: Seq<Vec<KeyValuePair>>, k: Seq<u8>)
    ensures
        read_of(without_deletions(overlay(tables)), k) == read_of(overlay(tables), k),
        without_deletions(overlay(tables)).contains_key(k) ==> without_deletions(overlay(tables))[k] is Some,
{
}

} // verus!
