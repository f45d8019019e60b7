//! Consumer cursors: where each client reads and what it has committed, and the one-line
//! JSON form a cursor is saved in.
use vstd::prelude::*;
use vstd::utf8::{
    decode_utf8, encode_utf8, encode_utf8_decode_utf8, encode_utf8_valid_utf8, is_char_boundary,
    is_char_boundary_iff_not_is_continuation_byte,
};

use crate::broker::error::{BrokerError, BrokerResult};
use crate::keyed::KeyedVec;
use crate::text::{decimal, joined, parse_u64, u64_text, u64_text_value};

verus! {

/// Where one client reads a topic.
#[derive(Debug)]
pub struct CursorState {
    pub client_id: String,
    pub topic_name: String,
    pub committed_offset: u64,
    pub fetch_offset: u64,
    pub last_activity_secs: u64,
}

/// A cursor as plain values.
pub struct CursorStateView {
    pub client_id: Seq<char>,
    pub topic_name: Seq<char>,
    pub committed_offset: u64,
    pub fetch_offset: u64,
    pub last_activity_secs: u64,
}

impl View for CursorState {
    type V = CursorStateView;

    open spec fn view(&self) -> CursorStateView {
        CursorStateView {
            client_id: self.client_id@,
            topic_name: self.topic_name@,
            committed_offset: self.committed_offset,
            fetch_offset: self.fetch_offset,
            last_activity_secs: self.last_activity_secs,
        }
    }
}

fn copy_state(s: &CursorState) -> (r: CursorState)
    ensures
        r@ == s@,
{
    CursorState {
        client_id: s.client_id.clone(),
        topic_name: s.topic_name.clone(),
        committed_offset: s.committed_offset,
        fetch_offset: s.fetch_offset,
        last_activity_secs: s.last_activity_secs,
    }
}

// ---------------------------------------------------------------------------
// The saved form.
// ---------------------------------------------------------------------------
/// The JSON line a cursor is saved as.
pub open spec fn cursor_text(c: CursorStateView) -> Seq<char> {
    "{\"client_id\":\""@ + c.client_id + "\",\"topic_name\":\""@ + c.topic_name
        + "\",\"committed_offset\":"@ + decimal(c.committed_offset as nat) + ",\"fetch_offset\":"@
        + decimal(c.fetch_offset as nat) + ",\"last_activity_secs\":"@ + decimal(
        c.last_activity_secs as nat,
    ) + "}"@
}

/// The JSON line `state` is saved as.
pub fn cursor_json(state: &CursorState) -> (r: String)
    ensures
        r@ == cursor_text(state@),
{
    let mut s = joined("{\"client_id\":\"", state.client_id.as_str());
    s.append("\",\"topic_name\":\"");
    s.append(state.topic_name.as_str());
    s.append("\",\"committed_offset\":");
    let c = u64_text(state.committed_offset);
    s.append(c.as_str());
    s.append(",\"fetch_offset\":");
    let f = u64_text(state.fetch_offset);
    s.append(f.as_str());
    s.append(",\"last_activity_secs\":");
    let l = u64_text(state.last_activity_secs);
    s.append(l.as_str());
    s.append("}");
    s
}

/// The quoted field names, as bytes.
pub open spec fn client_id_key() -> Seq<u8> {
    seq![34u8, 99u8, 108u8, 105u8, 101u8, 110u8, 116u8, 95u8, 105u8, 100u8, 34u8]
}

pub open spec fn topic_name_key() -> Seq<u8> {
    seq![34u8, 116u8, 111u8, 112u8, 105u8, 99u8, 95u8, 110u8, 97u8, 109u8, 101u8, 34u8]
}

pub open spec fn committed_key() -> Seq<u8> {
    seq![
        34u8, 99u8, 111u8, 109u8, 109u8, 105u8, 116u8, 116u8, 101u8, 100u8, 95u8, 111u8, 102u8,
        102u8, 115u8, 101u8, 116u8, 34u8,
    ]
}

pub open spec fn fetch_key() -> Seq<u8> {
    seq![
        34u8, 102u8, 101u8, 116u8, 99u8, 104u8, 95u8, 111u8, 102u8, 102u8, 115u8, 101u8, 116u8,
        34u8,
    ]
}

pub open spec fn activity_key() -> Seq<u8> {
    seq![
        34u8, 108u8, 97u8, 115u8, 116u8, 95u8, 97u8, 99u8, 116u8, 105u8, 118u8, 105u8, 116u8,
        121u8, 95u8, 115u8, 101u8, 99u8, 115u8, 34u8,
    ]
}

/// The first position from `from` on where `n` occurs in `h`.
pub open spec fn find_from(h: Seq<u8>, n: Seq<u8>, from: int) -> Option<int>
    decreases h.len() + 1 - from,
{
    if from < 0 || from + n.len() > h.len() {
        None
    } else if h.subrange(from, from + n.len()) == n {
        Some(from)
    } else {
        find_from(h, n, from + 1)
    }
}

/// The first position from `from` on that holds a byte satisfying `stop`.
pub open spec fn find_byte(h: Seq<u8>, from: int, stop: spec_fn(u8) -> bool) -> Option<int>
    decreases h.len() - from,
{
    if from < 0 || from >= h.len() {
        None
    } else if stop(h[from]) {
        Some(from)
    } else {
        find_byte(h, from + 1, stop)
    }
}

pub open spec fn is_quote(b: u8) -> bool {
    b == 34u8
}

/// A closing brace or a comma.
pub open spec fn ends_number(b: u8) -> bool {
    b == 125u8 || b == 44u8
}

/// Where the value of field `key` starts: `skip` bytes past its first occurrence.
pub open spec fn value_start(b: Seq<u8>, key: Seq<u8>, skip: int) -> Option<int> {
    match find_from(b, key, 0) {
        Some(i) => Some(i + key.len() + skip),
        None => None,
    }
}

/// The start of field `key`'s value, if the key occurs, lies within the text on a character
/// boundary (else slicing there fails).
pub open spec fn start_in_bounds(b: Seq<u8>, key: Seq<u8>, skip: int) -> bool {
    match value_start(b, key, skip) {
        Some(s) => s <= b.len() && is_char_boundary(b, s),
        None => true,
    }
}

/// The text of a quoted field: from three bytes past the key (`":"`) to the next quote.
pub open spec fn text_field(b: Seq<u8>, key: Seq<u8>) -> Option<Seq<char>> {
    match value_start(b, key, 3) {
        Some(s) => match find_byte(b, s, |x: u8| is_quote(x)) {
            Some(e) => Some(decode_utf8(b.subrange(s, e))),
            None => None,
        },
        None => None,
    }
}

/// The number of a numeric field: from two bytes past the key (`":`) to the next `}` or `,`
/// (or the end), read as a `u64`.
pub open spec fn number_field(b: Seq<u8>, key: Seq<u8>) -> Option<u64> {
    match value_start(b, key, 2) {
        Some(s) => {
            let e = match find_byte(b, s, |x: u8| ends_number(x)) {
                Some(e) => e,
                None => b.len() as int,
            };
            u64_text_value(decode_utf8(b.subrange(s, e)))
        },
        None => None,
    }
}

/// Reading the fields in order never slices outside the text: each field that is reached
/// (the ones before it were found) starts in bounds.
pub open spec fn cursor_fields_in_bounds(b: Seq<u8>) -> bool {
    &&& start_in_bounds(b, client_id_key(), 3)
    &&& text_field(b, client_id_key()) is Some ==> {
        &&& start_in_bounds(b, topic_name_key(), 3)
        &&& text_field(b, topic_name_key()) is Some ==> {
            &&& start_in_bounds(b, committed_key(), 2)
            &&& number_field(b, committed_key()) is Some ==> {
                &&& start_in_bounds(b, fetch_key(), 2)
                &&& number_field(b, fetch_key()) is Some ==> start_in_bounds(b, activity_key(), 2)
            }
        }
    }
}

/// The cursor a saved line describes, when all five fields are found.
pub open spec fn cursor_of(b: Seq<u8>) -> Option<CursorStateView> {
    match (
        text_field(b, client_id_key()),
        text_field(b, topic_name_key()),
        number_field(b, committed_key()),
        number_field(b, fetch_key()),
        number_field(b, activity_key()),
    ) {
        (Some(c), Some(t), Some(co), Some(f), Some(l)) => Some(
            CursorStateView {
                client_id: c,
                topic_name: t,
                committed_offset: co,
                fetch_offset: f,
                last_activity_secs: l,
            },
        ),
        _ => None,
    }
}


/// The first position from `from` on where `n` occurs in `h`.
fn find_bytes(h: &[u8], n: &Vec<u8>, from: usize) -> (r: Option<usize>)
    ensures
        match r {
            Some(i) => find_from(h@, n@, from as int) == Some(i as int),
            None => find_from(h@, n@, from as int) is None,
        },
{
    let hl = h.len();
    let nl = n.len();
    let mut i = from;
    while i <= hl && nl <= hl - i
        invariant
            hl == h@.len(),
            nl == n@.len(),
            from <= i,
            find_from(h@, n@, from as int) == find_from(h@, n@, i as int),
        decreases hl + 1 - i,
    {
        let mut j: usize = 0;
        let mut same = true;
        while j < nl
            invariant
                hl == h@.len(),
                nl == n@.len(),
                i + nl <= hl,
                j <= nl,
                same == forall|k: int| 0 <= k < j ==> h@[i + k] == n@[k],
            decreases nl - j,
        {
            if h[i + j] != n[j] {
                same = false;
            }
            j = j + 1;
        }
        if same {
            assert(h@.subrange(i as int, i + nl) =~= n@);
            return Some(i);
        }
        assert(h@.subrange(i as int, i + nl) != n@) by {
            let k = choose|k: int| 0 <= k < nl && h@[i + k] != n@[k];
            assert(h@.subrange(i as int, i + nl)[k] != n@[k]);
        }
        i = i + 1;
    }
    None
}

/// The first position from `from` on that holds a quote.
fn find_quote(h: &[u8], from: usize) -> (r: Option<usize>)
    ensures
        match r {
            Some(i) => find_byte(h@, from as int, |x: u8| is_quote(x)) == Some(i as int),
            None => find_byte(h@, from as int, |x: u8| is_quote(x)) is None,
        },
{
    let mut i = from;
    while i < h.len()
        invariant
            from <= i,
            find_byte(h@, from as int, |x: u8| is_quote(x)) == find_byte(h@, i as int, |x: u8| is_quote(x)),
        decreases h@.len() - i,
    {
        if h[i] == 34u8 {
            return Some(i);
        }
        i = i + 1;
    }
    None
}

/// The first position from `from` on that holds `}` or `,`.
fn find_number_end(h: &[u8], from: usize) -> (r: Option<usize>)
    ensures
        match r {
            Some(i) => find_byte(h@, from as int, |x: u8| ends_number(x)) == Some(i as int),
            None => find_byte(h@, from as int, |x: u8| ends_number(x)) is None,
        },
{
    let mut i = from;
    while i < h.len()
        invariant
            from <= i,
            find_byte(h@, from as int, |x: u8| ends_number(x)) == find_byte(h@, i as int, |x: u8| ends_number(x)),
        decreases h@.len() - i,
    {
        if h[i] == 125u8 || h[i] == 44u8 {
            return Some(i);
        }
        i = i + 1;
    }
    None
}

proof fn lemma_find_from_bounds(h: Seq<u8>, n: Seq<u8>, from: int)
    ensures
        find_from(h, n, from) matches Some(i) ==> from <= i && 0 <= i && i + n.len() <= h.len(),
    decreases h.len() + 1 - from,
{
    if !(from < 0 || from + n.len() > h.len()) && h.subrange(from, from + n.len()) != n {
        lemma_find_from_bounds(h, n, from + 1);
    }
}

proof fn lemma_find_byte_bounds(h: Seq<u8>, from: int, stop: spec_fn(u8) -> bool)
    ensures
        find_byte(h, from, stop) matches Some(i) ==> from <= i < h.len() && stop(h[i]),
    decreases h.len() - from,
{
    if !(from < 0 || from >= h.len()) && !stop(h[from]) {
        lemma_find_byte_bounds(h, from + 1, stop);
    }
}

/// The str `s` stands for the characters its bytes decode to.
proof fn lemma_str_chars(s: &str)
    ensures
        decode_utf8(encode_utf8(s@)) == s@,
{
    encode_utf8_decode_utf8(s@);
}

/// The text of the quoted field `key` in `json`.
fn read_text_field(json: &str, key: &Vec<u8>) -> (r: Option<String>)
    requires
        start_in_bounds(encode_utf8(json@), key@, 3),
    ensures
        match text_field(encode_utf8(json@), key@) {
            Some(t) => r matches Some(s) && s@ == t,
            None => r is None,
        },
{
    let bytes = json.as_bytes();
    let ghost b = bytes@;
    let i = match find_bytes(bytes, key, 0) {
        Some(i) => i,
        None => {
            return None;
        },
    };
    proof {
        lemma_find_from_bounds(b, key@, 0);
        assert(b == encode_utf8(json@));
        assert(value_start(b, key@, 3) == Some(i + key@.len() + 3));
    }
    let n = bytes.len();
    let start = i + key.len() + 3;
    let e = match find_quote(bytes, start) {
        Some(e) => e,
        None => {
            return None;
        },
    };
    proof {
        lemma_find_byte_bounds(b, start as int, |x: u8| is_quote(x));
    }
    let (_, rest) = json.split_at(start);
    proof {
        encode_utf8_valid_utf8(rest@);
        assert(encode_utf8(rest@) =~= b.subrange(start as int, b.len() as int));
        assert(encode_utf8(rest@)[e - start] == b[e as int]);
        is_char_boundary_iff_not_is_continuation_byte(encode_utf8(rest@), e - start);
    }
    let (val, _) = rest.split_at(e - start);
    proof {
        lemma_str_chars(val);
        assert(encode_utf8(val@) =~= b.subrange(start as int, e as int));
    }
    Some(val.to_owned())
}

/// The number in the numeric field `key` of `json`.
fn read_number_field(json: &str, key: &Vec<u8>) -> (r: Option<u64>)
    requires
        start_in_bounds(encode_utf8(json@), key@, 2),
    ensures
        r == number_field(encode_utf8(json@), key@),
{
    let bytes = json.as_bytes();
    let ghost b = bytes@;
    let i = match find_bytes(bytes, key, 0) {
        Some(i) => i,
        None => {
            return None;
        },
    };
    proof {
        lemma_find_from_bounds(b, key@, 0);
        assert(b == encode_utf8(json@));
        assert(value_start(b, key@, 2) == Some(i + key@.len() + 2));
    }
    let n = bytes.len();
    let start = i + key.len() + 2;
    let e = match find_number_end(bytes, start) {
        Some(e) => e,
        None => bytes.len(),
    };
    proof {
        lemma_find_byte_bounds(b, start as int, |x: u8| ends_number(x));
    }
    let (_, rest) = json.split_at(start);
    proof {
        encode_utf8_valid_utf8(rest@);
        assert(encode_utf8(rest@) =~= b.subrange(start as int, b.len() as int));
        if e < bytes.len() {
            assert(encode_utf8(rest@)[e - start] == b[e as int]);
            is_char_boundary_iff_not_is_continuation_byte(encode_utf8(rest@), e - start);
        } else {
            vstd::utf8::is_char_boundary_start_end_of_seq(encode_utf8(rest@));
        }
    }
    let (digits, _) = rest.split_at(e - start);
    proof {
        lemma_str_chars(digits);
        assert(encode_utf8(digits@) =~= b.subrange(start as int, e as int));
    }
    parse_u64(digits)
}

/// Whether reading a saved line stays within it (see `cursor_fields_in_bounds`).
pub fn cursor_json_in_bounds(json: &str) -> (r: bool)
    ensures
        r == cursor_fields_in_bounds(encode_utf8(json@)),
{
    let bytes = json.as_bytes();
    let k1 = vec![34u8, 99u8, 108u8, 105u8, 101u8, 110u8, 116u8, 95u8, 105u8, 100u8, 34u8];
    assert(k1@ =~= client_id_key());
    if !start_ok(json, &k1, 3) {
        return false;
    }
    if read_text_field(json, &k1).is_none() {
        return true;
    }
    let k2 = vec![34u8, 116u8, 111u8, 112u8, 105u8, 99u8, 95u8, 110u8, 97u8, 109u8, 101u8, 34u8];
    assert(k2@ =~= topic_name_key());
    if !start_ok(json, &k2, 3) {
        return false;
    }
    if read_text_field(json, &k2).is_none() {
        return true;
    }
    let k3 = vec![
        34u8, 99u8, 111u8, 109u8, 109u8, 105u8, 116u8, 116u8, 101u8, 100u8, 95u8, 111u8, 102u8,
        102u8, 115u8, 101u8, 116u8, 34u8,
    ];
    assert(k3@ =~= committed_key());
    if !start_ok(json, &k3, 2) {
        return false;
    }
    if read_number_field(json, &k3).is_none() {
        return true;
    }
    let k4 = vec![
        34u8, 102u8, 101u8, 116u8, 99u8, 104u8, 95u8, 111u8, 102u8, 102u8, 115u8, 101u8, 116u8,
        34u8,
    ];
    assert(k4@ =~= fetch_key());
    if !start_ok(json, &k4, 2) {
        return false;
    }
    if read_number_field(json, &k4).is_none() {
        return true;
    }
    let k5 = vec![
        34u8, 108u8, 97u8, 115u8, 116u8, 95u8, 97u8, 99u8, 116u8, 105u8, 118u8, 105u8, 116u8,
        121u8, 95u8, 115u8, 101u8, 99u8, 115u8, 34u8,
    ];
    assert(k5@ =~= activity_key());
    start_ok(json, &k5, 2)
}

/// Whether the value of field `key` starts within `json` on a character boundary.
fn start_ok(json: &str, key: &Vec<u8>, skip: usize) -> (r: bool)
    requires
        skip <= 3,
    ensures
        r == start_in_bounds(encode_utf8(json@), key@, skip as int),
{
    let bytes = json.as_bytes();
    match find_bytes(bytes, key, 0) {
        None => true,
        Some(i) => {
            proof {
                lemma_find_from_bounds(bytes@, key@, 0);
            }
            let n = bytes.len();
            let key_end = i + key.len();
            skip <= n - key_end && json.is_char_boundary(key_end + skip)
        },
    }
}

/// The cursor a saved line describes; `None` when a field is missing or unreadable.
pub fn parse_cursor_json(json: &str) -> (r: Option<CursorState>)
    requires
        cursor_fields_in_bounds(encode_utf8(json@)),
    ensures
        match cursor_of(encode_utf8(json@)) {
            Some(v) => r matches Some(c) && c@ == v,
            None => r is None,
        },
{
    let k1 = vec![34u8, 99u8, 108u8, 105u8, 101u8, 110u8, 116u8, 95u8, 105u8, 100u8, 34u8];
    assert(k1@ =~= client_id_key());
    let client_id = match read_text_field(json, &k1) {
        Some(s) => s,
        None => {
            return None;
        },
    };
    let k2 = vec![34u8, 116u8, 111u8, 112u8, 105u8, 99u8, 95u8, 110u8, 97u8, 109u8, 101u8, 34u8];
    assert(k2@ =~= topic_name_key());
    let topic_name = match read_text_field(json, &k2) {
        Some(s) => s,
        None => {
            return None;
        },
    };
    let k3 = vec![
        34u8, 99u8, 111u8, 109u8, 109u8, 105u8, 116u8, 116u8, 101u8, 100u8, 95u8, 111u8, 102u8,
        102u8, 115u8, 101u8, 116u8, 34u8,
    ];
    assert(k3@ =~= committed_key());
    let committed_offset = match read_number_field(json, &k3) {
        Some(v) => v,
        None => {
            return None;
        },
    };
    let k4 = vec![
        34u8, 102u8, 101u8, 116u8, 99u8, 104u8, 95u8, 111u8, 102u8, 102u8, 115u8, 101u8, 116u8,
        34u8,
    ];
    assert(k4@ =~= fetch_key());
    let fetch_offset = match read_number_field(json, &k4) {
        Some(v) => v,
        None => {
            return None;
        },
    };
    let k5 = vec![
        34u8, 108u8, 97u8, 115u8, 116u8, 95u8, 97u8, 99u8, 116u8, 105u8, 118u8, 105u8, 116u8,
        121u8, 95u8, 115u8, 101u8, 99u8, 115u8, 34u8,
    ];
    assert(k5@ =~= activity_key());
    let last_activity_secs = match read_number_field(json, &k5) {
        Some(v) => v,
        None => {
            return None;
        },
    };
    Some(CursorState { client_id, topic_name, committed_offset, fetch_offset, last_activity_secs })
}


// ---------------------------------------------------------------------------
// The table of cursors.
// ---------------------------------------------------------------------------
/// A fresh cursor: nothing fetched, nothing committed.
pub open spec fn fresh_cursor(client_id: Seq<char>, topic_name: Seq<char>) -> CursorStateView {
    CursorStateView {
        client_id,
        topic_name,
        committed_offset: 0,
        fetch_offset: 0,
        last_activity_secs: 0,
    }
}

/// `c` with its fetch offset set to `offset`.
pub open spec fn with_fetch(c: CursorStateView, offset: u64) -> CursorStateView {
    CursorStateView {
        client_id: c.client_id,
        topic_name: c.topic_name,
        committed_offset: c.committed_offset,
        fetch_offset: offset,
        last_activity_secs: c.last_activity_secs,
    }
}

/// `c` with its committed offset set to `offset`.
pub open spec fn with_commit(c: CursorStateView, offset: u64) -> CursorStateView {
    CursorStateView {
        client_id: c.client_id,
        topic_name: c.topic_name,
        committed_offset: offset,
        fetch_offset: c.fetch_offset,
        last_activity_secs: c.last_activity_secs,
    }
}

/// The message for an unknown client.
pub open spec fn cursor_missing_message(client_id: Seq<char>) -> Seq<char> {
    "cursor not found: "@ + client_id
}

/// The cursors of all clients, under their client ids.
pub struct CursorTable {
    cursors: KeyedVec<CursorState>,
}

impl View for CursorTable {
    type V = Map<Seq<char>, CursorStateView>;

    closed spec fn view(&self) -> Map<Seq<char>, CursorStateView> {
        self.cursors@.map_values(|c: CursorState| c@)
    }
}

impl CursorTable {
    /// No cursors.
    pub fn new() -> (r: Self)
        ensures
            r@ == Map::<Seq<char>, CursorStateView>::empty(),
    {
        let r = CursorTable { cursors: KeyedVec::new() };
        assert(r@ =~= Map::<Seq<char>, CursorStateView>::empty());
        r
    }

    /// The cursor of `client_id`, if it has one.
    pub fn get(&self, client_id: &str) -> (r: Option<CursorState>)
        ensures
            match r {
                Some(c) => self@.contains_key(client_id@) && c@ == self@[client_id@],
                None => !self@.contains_key(client_id@),
            },
    {
        let key = client_id.to_owned();
        match self.cursors.get(&key) {
            Some(c) => Some(copy_state(c)),
            None => None,
        }
    }

    /// Records `state` under `client_id`.
    pub fn insert(&mut self, client_id: String, state: CursorState)
        ensures
            final(self)@ == old(self)@.insert(client_id@, state@),
    {
        let ghost v = state@;
        let ghost k = client_id@;
        self.cursors.insert(client_id, state);
        assert(self@ =~= old(self)@.insert(k, v));
    }

    /// The cursor of `client_id`, created fresh for `topic_name` when it has none.
    pub fn get_or_create(&mut self, client_id: &str, topic_name: &str) -> (r: CursorState)
        ensures
            old(self)@.contains_key(client_id@) ==> final(self)@ == old(self)@ && r@ == old(
                self,
            )@[client_id@],
            !old(self)@.contains_key(client_id@) ==> r@ == fresh_cursor(client_id@, topic_name@)
                && final(self)@ == old(self)@.insert(client_id@, r@),
    {
        if let Some(existing) = self.get(client_id) {
            return existing;
        }
        let state = CursorState {
            client_id: client_id.to_owned(),
            topic_name: topic_name.to_owned(),
            committed_offset: 0,
            fetch_offset: 0,
            last_activity_secs: 0,
        };
        let r = copy_state(&state);
        self.insert(client_id.to_owned(), state);
        r
    }

    /// Sets the fetch offset of `client_id`'s cursor.
    pub fn update_fetch_offset(&mut self, client_id: &str, new_offset: u64) -> (r: BrokerResult<()>)
        ensures
            old(self)@.contains_key(client_id@) ==> r is Ok && final(self)@ == old(self)@.insert(
                client_id@,
                with_fetch(old(self)@[client_id@], new_offset),
            ),
            !old(self)@.contains_key(client_id@) ==> final(self)@ == old(self)@ && (r matches Err(
                BrokerError::NotFound(m),
            ) && m@ == cursor_missing_message(client_id@)),
    {
        match self.get(client_id) {
            Some(c) => {
                let updated = CursorState {
                    client_id: c.client_id,
                    topic_name: c.topic_name,
                    committed_offset: c.committed_offset,
                    fetch_offset: new_offset,
                    last_activity_secs: c.last_activity_secs,
                };
                self.insert(client_id.to_owned(), updated);
                Ok(())
            },
            None => Err(BrokerError::NotFound(joined("cursor not found: ", client_id))),
        }
    }

    /// Sets the committed offset of `client_id`'s cursor and returns the cursor as it now
    /// stands, to be saved.
    pub fn commit_offset(&mut self, client_id: &str, offset: u64) -> (r: BrokerResult<CursorState>)
        ensures
            old(self)@.contains_key(client_id@) ==> (r matches Ok(c) && c@ == with_commit(
                old(self)@[client_id@],
                offset,
            )) && final(self)@ == old(self)@.insert(client_id@, with_commit(old(self)@[client_id@], offset)),
            !old(self)@.contains_key(client_id@) ==> final(self)@ == old(self)@ && (r matches Err(
                BrokerError::NotFound(m),
            ) && m@ == cursor_missing_message(client_id@)),
    {
        match self.get(client_id) {
            Some(c) => {
                let updated = CursorState {
                    client_id: c.client_id,
                    topic_name: c.topic_name,
                    committed_offset: offset,
                    fetch_offset: c.fetch_offset,
                    last_activity_secs: c.last_activity_secs,
                };
                let r = copy_state(&updated);
                self.insert(client_id.to_owned(), updated);
                Ok(r)
            },
            None => Err(BrokerError::NotFound(joined("cursor not found: ", client_id))),
        }
    }

    /// The client ids that have cursors, each once.
    pub fn client_ids(&self) -> (r: Vec<String>)
        ensures
            forall|i: int| 0 <= i < r@.len() ==> self@.contains_key(#[trigger] r@[i]@),
            forall|k: Seq<char>|
                self@.contains_key(k) ==> exists|i: int| 0 <= i < r@.len() && #[trigger] r@[i]@ == k,
    {
        self.cursors.keys()
    }
}

} // verus!
