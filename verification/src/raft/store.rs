//! The replicated key-value state machine.
use vstd::prelude::*;

verus! {

/// A state-machine command carried in the log.
#[derive(Debug)]
pub enum Command {
    Put { key: String, value: String },
    Delete { key: String },
}

impl Command {
    /// A copy of the command.
    pub fn duplicate(&self) -> (r: Command)
        ensures
            r == *self,
    {
        match self {
            Command::Put { key, value } => Command::Put { key: key.clone(), value: value.clone() },
            Command::Delete { key } => Command::Delete { key: key.clone() },
        }
    }
}

/// The key held at position `i` of an association list.
pub open spec fn key_at(s: Seq<(String, String)>, i: int) -> Seq<char> {
    s[i].0@
}

/// No key occurs twice in the list.
pub open spec fn keys_distinct(s: Seq<(String, String)>) -> bool {
    forall|i: int, j: int|
        0 <= i < s.len() && 0 <= j < s.len() && i != j ==> key_at(s, i) != key_at(s, j)
}

/// `k` is the key of some entry of the list.
pub open spec fn has_key(s: Seq<(String, String)>, k: Seq<char>) -> bool {
    exists|i: int| 0 <= i < s.len() && key_at(s, i) == k
}

/// The map that an association list with distinct keys stands for.
pub open spec fn pairs_map(s: Seq<(String, String)>) -> Map<Seq<char>, Seq<char>> {
    Map::new(
        |k: Seq<char>| has_key(s, k),
        |k: Seq<char>| s[choose|i: int| 0 <= i < s.len() && key_at(s, i) == k].1@,
    )
}

/// The map after `command`.
pub open spec fn apply_command(m: Map<Seq<char>, Seq<char>>, command: Command) -> Map<
    Seq<char>,
    Seq<char>,
> {
    match command {
        Command::Put { key, value } => m.insert(key@, value@),
        Command::Delete { key } => m.remove(key@),
    }
}

/// The key a command acts on.
pub open spec fn command_key(command: Command) -> Seq<char> {
    match command {
        Command::Put { key, .. } => key@,
        Command::Delete { key } => key@,
    }
}

/// A read after a write gives back the value written, a read after a delete finds nothing,
/// and every other key keeps what it held.
pub proof fn lemma_read_after_write(m: Map<Seq<char>, Seq<char>>, command: Command, other: Seq<char>)
    requires
        other != command_key(command),
    ensures
        match command {
            Command::Put { key, value } => apply_command(m, command).contains_key(key@)
                && apply_command(m, command)[key@] == value@,
            Command::Delete { key } => !apply_command(m, command).contains_key(key@),
        },
        apply_command(m, command).contains_key(other) == m.contains_key(other),
        m.contains_key(other) ==> apply_command(m, command)[other] == m[other],
{
}

proof fn lemma_pairs_value(s: Seq<(String, String)>, i: int)
    requires
        keys_distinct(s),
        0 <= i < s.len(),
    ensures
        pairs_map(s).contains_key(key_at(s, i)),
        pairs_map(s)[key_at(s, i)] == s[i].1@,
{
    let k = key_at(s, i);
    assert(has_key(s, k));
    let j = choose|j: int| 0 <= j < s.len() && key_at(s, j) == k;
    assert(j == i);
}

proof fn lemma_pairs_remove(s: Seq<(String, String)>, i: int)
    requires
        keys_distinct(s),
        0 <= i < s.len(),
    ensures
        keys_distinct(s.remove(i)),
        pairs_map(s.remove(i)) == pairs_map(s).remove(key_at(s, i)),
{
    let t = s.remove(i);
    assert forall|a: int, b: int|
        0 <= a < t.len() && 0 <= b < t.len() && a != b implies key_at(t, a) != key_at(t, b) by {
        let a2 = if a < i { a } else { a + 1 };
        let b2 = if b < i { b } else { b + 1 };
        assert(key_at(t, a) == key_at(s, a2));
        assert(key_at(t, b) == key_at(s, b2));
    }
    let m = pairs_map(s).remove(key_at(s, i));
    assert forall|k: Seq<char>| #[trigger] pairs_map(t).contains_key(k) <==> m.contains_key(k) by {
        if has_key(t, k) {
            let a = choose|a: int| 0 <= a < t.len() && key_at(t, a) == k;
            let a2 = if a < i { a } else { a + 1 };
            assert(key_at(s, a2) == k);
            assert(has_key(s, k));
        }
        if has_key(s, k) && k != key_at(s, i) {
            let a = choose|a: int| 0 <= a < s.len() && key_at(s, a) == k;
            assert(a != i);
            let a2 = if a < i { a } else { a - 1 };
            assert(key_at(t, a2) == k);
        }
    }
    assert forall|k: Seq<char>| #[trigger] pairs_map(t).contains_key(k) implies pairs_map(t)[k]
        == m[k] by {
        let a = choose|a: int| 0 <= a < t.len() && key_at(t, a) == k;
        let a2 = if a < i { a } else { a + 1 };
        lemma_pairs_value(t, a);
        lemma_pairs_value(s, a2);
    }
    assert(pairs_map(t) =~= m);
}

proof fn lemma_pairs_push(s: Seq<(String, String)>, e: (String, String))
    requires
        keys_distinct(s),
        !has_key(s, e.0@),
    ensures
        keys_distinct(s.push(e)),
        pairs_map(s.push(e)) == pairs_map(s).insert(e.0@, e.1@),
{
    let t = s.push(e);
    assert forall|a: int, b: int|
        0 <= a < t.len() && 0 <= b < t.len() && a != b implies key_at(t, a) != key_at(t, b) by {
        if a < s.len() && b < s.len() {
            assert(key_at(t, a) == key_at(s, a));
            assert(key_at(t, b) == key_at(s, b));
        } else if a < s.len() {
            assert(key_at(t, a) == key_at(s, a));
        } else if b < s.len() {
            assert(key_at(t, b) == key_at(s, b));
        }
    }
    let m = pairs_map(s).insert(e.0@, e.1@);
    assert forall|k: Seq<char>| #[trigger] pairs_map(t).contains_key(k) <==> m.contains_key(k) by {
        if has_key(t, k) {
            let a = choose|a: int| 0 <= a < t.len() && key_at(t, a) == k;
            if a < s.len() {
                assert(key_at(s, a) == k);
            }
        }
        if has_key(s, k) {
            let a = choose|a: int| 0 <= a < s.len() && key_at(s, a) == k;
            assert(key_at(t, a) == k);
        }
        if k == e.0@ {
            assert(key_at(t, s.len() as int) == k);
        }
    }
    assert forall|k: Seq<char>| #[trigger] pairs_map(t).contains_key(k) implies pairs_map(t)[k]
        == m[k] by {
        let a = choose|a: int| 0 <= a < t.len() && key_at(t, a) == k;
        lemma_pairs_value(t, a);
        if a < s.len() {
            assert(key_at(s, a) == k);
            lemma_pairs_value(s, a);
        }
    }
    assert(pairs_map(t) =~= m);
}

/// The applied key-value state.
pub struct KeyValueStore {
    entries: Vec<(String, String)>,
}

impl View for KeyValueStore {
    type V = Map<Seq<char>, Seq<char>>;

    closed spec fn view(&self) -> Map<Seq<char>, Seq<char>> {
        pairs_map(self.entries@)
    }
}

impl KeyValueStore {
    #[verifier::type_invariant]
    spec fn distinct(&self) -> bool {
        keys_distinct(self.entries@)
    }

    /// An empty store.
    pub fn new() -> (r: Self)
        ensures
            r@ == Map::<Seq<char>, Seq<char>>::empty(),
    {
        let r = KeyValueStore { entries: Vec::new() };
        assert(pairs_map(r.entries@) =~= Map::<Seq<char>, Seq<char>>::empty());
        r
    }

    /// The position of `key`, if the store holds it.
    fn position(&self, key: &String) -> (r: Option<usize>)
        requires
            keys_distinct(self.entries@),
        ensures
            match r {
                Some(i) => i < self.entries@.len() && key_at(self.entries@, i as int) == key@,
                None => !has_key(self.entries@, key@),
            },
    {
        let mut i: usize = 0;
        while i < self.entries.len()
            invariant
                i <= self.entries@.len(),
                forall|j: int| 0 <= j < i ==> key_at(self.entries@, j) != key@,
            decreases self.entries@.len() - i,
        {
            if self.entries[i].0 == *key {
                return Some(i);
            }
            i = i + 1;
        }
        None
    }

    /// Applies `command` and returns the value the key held before.
    pub fn apply(&mut self, command: &Command) -> (r: Option<String>)
        ensures
            final(self)@ == apply_command(old(self)@, *command),
            match r {
                Some(v) => old(self)@.contains_key(command_key(*command)) && v@ == old(
                    self,
                )@[command_key(*command)],
                None => !old(self)@.contains_key(command_key(*command)),
            },
    {
        proof {
            use_type_invariant(&*self);
        }
        let mut entries = Vec::new();
        std::mem::swap(&mut entries, &mut self.entries);
        let ghost s = entries@;
        let r = match command {
            Command::Put { key, value } => {
                let found = {
                    let tmp = KeyValueStore { entries };
                    let p = tmp.position(key);
                    entries = tmp.entries;
                    p
                };
                match found {
                    Some(i) => {
                        proof {
                            lemma_pairs_value(s, i as int);
                            lemma_pairs_remove(s, i as int);
                        }
                        let (k, old_value) = entries.remove(i);
                        proof {
                            assert(!has_key(entries@, key@)) by {
                                if has_key(entries@, key@) {
                                    let a = choose|a: int|
                                        0 <= a < entries@.len() && key_at(entries@, a) == key@;
                                    let a2 = if a < i { a } else { a + 1 };
                                    assert(key_at(s, a2) == key@);
                                }
                            }
                        }
                        let v = value.clone();
                        proof {
                            lemma_pairs_push(entries@, (k, v));
                        }
                        entries.push((k, v));
                        proof {
                            assert(pairs_map(entries@) =~= pairs_map(s).insert(key@, value@));
                        }
                        Some(old_value)
                    },
                    None => {
                        let k = key.clone();
                        let v = value.clone();
                        proof {
                            lemma_pairs_push(s, (k, v));
                        }
                        entries.push((k, v));
                        None
                    },
                }
            },
            Command::Delete { key } => {
                let found = {
                    let tmp = KeyValueStore { entries };
                    let p = tmp.position(key);
                    entries = tmp.entries;
                    p
                };
                match found {
                    Some(i) => {
                        proof {
                            lemma_pairs_value(s, i as int);
                            lemma_pairs_remove(s, i as int);
                        }
                        let (_, old_value) = entries.remove(i);
                        Some(old_value)
                    },
                    None => {
                        proof {
                            assert(pairs_map(s).remove(key@) =~= pairs_map(s));
                        }
                        None
                    },
                }
            },
        };
        self.entries = entries;
        r
    }

    /// The value stored under `key`.
    pub fn get(&self, key: &str) -> (r: Option<&String>)
        ensures
            match r {
                Some(v) => self@.contains_key(key@) && v@ == self@[key@],
                None => !self@.contains_key(key@),
            },
    {
        proof {
            use_type_invariant(self);
        }
        let k = key.to_owned();
        match self.position(&k) {
            Some(i) => {
                proof {
                    lemma_pairs_value(self.entries@, i as int);
                }
                Some(&self.entries[i].1)
            },
            None => None,
        }
    }

    /// Every key with its value, each key once.
    pub fn get_all(&self) -> (r: Vec<(String, String)>)
        ensures
            keys_distinct(r@),
            pairs_map(r@) == self@,
    {
        proof {
            use_type_invariant(self);
        }
        let mut r: Vec<(String, String)> = Vec::new();
        let mut i: usize = 0;
        while i < self.entries.len()
            invariant
                i <= self.entries@.len(),
                r@.len() == i,
                keys_distinct(self.entries@),
                forall|j: int| 0 <= j < i ==> #[trigger] r@[j] == self.entries@[j],
            decreases self.entries@.len() - i,
        {
            let k = self.entries[i].0.clone();
            let v = self.entries[i].1.clone();
            r.push((k, v));
            i = i + 1;
        }
        assert(r@ =~= self.entries@);
        r
    }
}

} // verus!
