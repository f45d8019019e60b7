//! A list of values under distinct text keys, seen as a map from key to value.
//!
//! It stands where a hash map keyed by text would. vstd's hash-map specifications hold only
//! for key types that obey its key model, which vstd establishes for integers and `bool`
//! but not for `String`, so no lookup in a `HashMap<String, _>` could be proved. The
//! callers never depend on the order of a hash map's entries.
use vstd::prelude::*;

verus! {

/// The key at position `i`.
pub open spec fn key_of<V>(s: Seq<(String, V)>, i: int) -> Seq<char> {
    s[i].0@
}

/// No key occurs twice.
pub open spec fn distinct_keys<V>(s: Seq<(String, V)>) -> bool {
    forall|i: int, j: int|
        0 <= i < s.len() && 0 <= j < s.len() && i != j ==> key_of(s, i) != key_of(s, j)
}

/// Some entry has key `k`.
pub open spec fn holds_key<V>(s: Seq<(String, V)>, k: Seq<char>) -> bool {
    exists|i: int| 0 <= i < s.len() && key_of(s, i) == k
}

/// The map the list stands for.
pub open spec fn keyed_map<V>(s: Seq<(String, V)>) -> Map<Seq<char>, V> {
    Map::new(
        |k: Seq<char>| holds_key(s, k),
        |k: Seq<char>| s[choose|i: int| 0 <= i < s.len() && key_of(s, i) == k].1,
    )
}

proof fn lemma_value<V>(s: Seq<(String, V)>, i: int)
    requires
        distinct_keys(s),
        0 <= i < s.len(),
    ensures
        keyed_map(s).contains_key(key_of(s, i)),
        keyed_map(s)[key_of(s, i)] == s[i].1,
{
    let k = key_of(s, i);
    assert(holds_key(s, k));
    let j = choose|j: int| 0 <= j < s.len() && key_of(s, j) == k;
    assert(j == i);
}

proof fn lemma_remove<V>(s: Seq<(String, V)>, i: int)
    requires
        distinct_keys(s),
        0 <= i < s.len(),
    ensures
        distinct_keys(s.remove(i)),
        keyed_map(s.remove(i)) == keyed_map(s).remove(key_of(s, i)),
{
    let t = s.remove(i);
    assert forall|a: int, b: int|
        0 <= a < t.len() && 0 <= b < t.len() && a != b implies key_of(t, a) != key_of(t, b) by {
        let a2 = if a < i { a } else { a + 1 };
        let b2 = if b < i { b } else { b + 1 };
        assert(key_of(t, a) == key_of(s, a2));
        assert(key_of(t, b) == key_of(s, b2));
    }
    let m = keyed_map(s).remove(key_of(s, i));
    assert forall|k: Seq<char>| #[trigger] keyed_map(t).contains_key(k) <==> m.contains_key(k) by {
        if holds_key(t, k) {
            let a = choose|a: int| 0 <= a < t.len() && key_of(t, a) == k;
            let a2 = if a < i { a } else { a + 1 };
            assert(key_of(s, a2) == k);
        }
        if holds_key(s, k) && k != key_of(s, i) {
            let a = choose|a: int| 0 <= a < s.len() && key_of(s, a) == k;
            let a2 = if a < i { a } else { a - 1 };
            assert(key_of(t, a2) == k);
        }
    }
    assert forall|k: Seq<char>| #[trigger] keyed_map(t).contains_key(k) implies keyed_map(t)[k]
        == m[k] by {
        let a = choose|a: int| 0 <= a < t.len() && key_of(t, a) == k;
        let a2 = if a < i { a } else { a + 1 };
        lemma_value(t, a);
        lemma_value(s, a2);
    }
    assert(keyed_map(t) =~= m);
}

proof fn lemma_push<V>(s: Seq<(String, V)>, e: (String, V))
    requires
        distinct_keys(s),
        !holds_key(s, e.0@),
    ensures
        distinct_keys(s.push(e)),
        keyed_map(s.push(e)) == keyed_map(s).insert(e.0@, e.1),
{
    let t = s.push(e);
    assert forall|a: int, b: int|
        0 <= a < t.len() && 0 <= b < t.len() && a != b implies key_of(t, a) != key_of(t, b) by {
        if a < s.len() {
            assert(key_of(t, a) == key_of(s, a));
        }
        if b < s.len() {
            assert(key_of(t, b) == key_of(s, b));
        }
    }
    let m = keyed_map(s).insert(e.0@, e.1);
    assert forall|k: Seq<char>| #[trigger] keyed_map(t).contains_key(k) <==> m.contains_key(k) by {
        if holds_key(t, k) {
            let a = choose|a: int| 0 <= a < t.len() && key_of(t, a) == k;
            if a < s.len() {
                assert(key_of(s, a) == k);
            }
        }
        if holds_key(s, k) {
            let a = choose|a: int| 0 <= a < s.len() && key_of(s, a) == k;
            assert(key_of(t, a) == k);
        }
        if k == e.0@ {
            assert(key_of(t, s.len() as int) == k);
        }
    }
    assert forall|k: Seq<char>| #[trigger] keyed_map(t).contains_key(k) implies keyed_map(t)[k]
        == m[k] by {
        let a = choose|a: int| 0 <= a < t.len() && key_of(t, a) == k;
        lemma_value(t, a);
        if a < s.len() {
            assert(key_of(s, a) == k);
            lemma_value(s, a);
        }
    }
    assert(keyed_map(t) =~= m);
}

/// Values under distinct text keys.
pub struct KeyedVec<V> {
    entries: Vec<(String, V)>,
}

impl<V> View for KeyedVec<V> {
    type V = Map<Seq<char>, V>;

    closed spec fn view(&self) -> Map<Seq<char>, V> {
        keyed_map(self.entries@)
    }
}

impl<V> KeyedVec<V> {
    #[verifier::type_invariant]
    spec fn keys_unique(&self) -> bool {
        distinct_keys(self.entries@)
    }

    /// No entries.
    pub fn new() -> (r: Self)
        ensures
            r@ == Map::<Seq<char>, V>::empty(),
    {
        let r = KeyedVec { entries: Vec::new() };
        assert(keyed_map(r.entries@) =~= Map::<Seq<char>, V>::empty());
        r
    }

    fn position(&self, key: &String) -> (r: Option<usize>)
        ensures
            match r {
                Some(i) => i < self.entries@.len() && key_of(self.entries@, i as int) == key@,
                None => !holds_key(self.entries@, key@),
            },
    {
        let mut i: usize = 0;
        while i < self.entries.len()
            invariant
                i <= self.entries@.len(),
                forall|j: int| 0 <= j < i ==> key_of(self.entries@, j) != key@,
            decreases self.entries@.len() - i,
        {
            if self.entries[i].0 == *key {
                return Some(i);
            }
            i = i + 1;
        }
        None
    }

    /// The value under `key`.
    pub fn get(&self, key: &String) -> (r: Option<&V>)
        ensures
            match r {
                Some(v) => self@.contains_key(key@) && *v == self@[key@],
                None => !self@.contains_key(key@),
            },
    {
        proof {
            use_type_invariant(self);
        }
        match self.position(key) {
            Some(i) => {
                proof {
                    lemma_value(self.entries@, i as int);
                }
                Some(&self.entries[i].1)
            },
            None => None,
        }
    }

    /// Puts `value` under `key`, replacing what was there.
    pub fn insert(&mut self, key: String, value: V)
        ensures
            final(self)@ == old(self)@.insert(key@, value),
    {
        proof {
            use_type_invariant(&*self);
        }
        let mut entries = Vec::new();
        std::mem::swap(&mut entries, &mut self.entries);
        let ghost s = entries@;
        let found = {
            let tmp = KeyedVec { entries };
            let p = tmp.position(&key);
            entries = tmp.entries;
            p
        };
        match found {
            Some(i) => {
                proof {
                    lemma_remove(s, i as int);
                }
                let _ = entries.remove(i);
                proof {
                    assert(!holds_key(entries@, key@)) by {
                        if holds_key(entries@, key@) {
                            let a = choose|a: int|
                                0 <= a < entries@.len() && key_of(entries@, a) == key@;
                            let a2 = if a < i { a } else { a + 1 };
                            assert(key_of(s, a2) == key@);
                        }
                    }
                    lemma_push(entries@, (key, value));
                    assert(keyed_map(s).remove(key@).insert(key@, value) =~= keyed_map(s).insert(
                        key@,
                        value,
                    ));
                }
                entries.push((key, value));
            },
            None => {
                proof {
                    lemma_push(s, (key, value));
                }
                entries.push((key, value));
            },
        }
        self.entries = entries;
    }

    /// Removes the entry under `key`, returning whether there was one.
    pub fn remove(&mut self, key: &String) -> (r: bool)
        ensures
            r == old(self)@.contains_key(key@),
            final(self)@ == old(self)@.remove(key@),
    {
        proof {
            use_type_invariant(&*self);
        }
        let mut entries = Vec::new();
        std::mem::swap(&mut entries, &mut self.entries);
        let ghost s = entries@;
        let found = {
            let tmp = KeyedVec { entries };
            let p = tmp.position(key);
            entries = tmp.entries;
            p
        };
        let r = match found {
            Some(i) => {
                proof {
                    lemma_value(s, i as int);
                    lemma_remove(s, i as int);
                }
                let _ = entries.remove(i);
                true
            },
            None => {
                proof {
                    assert(keyed_map(s).remove(key@) =~= keyed_map(s));
                }
                false
            },
        };
        self.entries = entries;
        r
    }
    /// The keys, each once.
    pub fn keys(&self) -> (r: Vec<String>)
        ensures
            forall|i: int| 0 <= i < r@.len() ==> self@.contains_key(#[trigger] r@[i]@),
            forall|k: Seq<char>|
                self@.contains_key(k) ==> exists|i: int| 0 <= i < r@.len() && #[trigger] r@[i]@ == k,
    {
        let mut r: Vec<String> = Vec::new();
        let mut i: usize = 0;
        while i < self.entries.len()
            invariant
                i <= self.entries@.len(),
                r@.len() == i,
                forall|j: int| 0 <= j < i ==> #[trigger] r@[j]@ == key_of(self.entries@, j),
            decreases self.entries@.len() - i,
        {
            r.push(self.entries[i].0.clone());
            i = i + 1;
        }
        proof {
            assert forall|j: int| 0 <= j < r@.len() implies self@.contains_key(#[trigger] r@[j]@) by {
                assert(holds_key(self.entries@, key_of(self.entries@, j)));
            }
            assert forall|k: Seq<char>| self@.contains_key(k) implies exists|j: int|
                0 <= j < r@.len() && #[trigger] r@[j]@ == k by {
                let j = choose|j: int| 0 <= j < self.entries@.len() && key_of(self.entries@, j) == k;
                assert(r@[j]@ == k);
            }
        }
        r
    }
}

} // verus!
