//! What a broker makes of a request frame, and how it answers: the request bodies are
//! checked and decoded here, the log is consulted by the caller, and the answers are built
//! from what the log returned.
use vstd::prelude::*;
use vstd::utf8::{decode_utf8, encode_utf8, encode_utf8_decode_utf8, encode_utf8_valid_utf8, valid_utf8};

use crate::broker::error::{BrokerError, BrokerResult};
use crate::broker::protocol::{
    fetch_body, list_offsets_body, produce_body, topic_field, Frame, API_COMMIT, API_FETCH,
    API_LIST_OFFSETS, API_PRODUCE, ERROR_NONE, ERROR_OFFSET_OUT_OF_RANGE,
};
use crate::text::{decimal, u64_text};
use crate::wire::{
    be16, be32, be64, copy_range, lemma_be16_roundtrip, lemma_be32_roundtrip, lemma_be64_roundtrip,
    read_u16, read_u32, read_u64, u16_at, u32_at, u64_at,
};

verus! {

/// A decoded request.
#[derive(Debug)]
pub enum Request {
    Produce { topic: String, key: Vec<u8>, value: Vec<u8> },
    Fetch { topic: String, start_offset: u64, max_bytes: u32 },
    ListOffsets { topic: String },
    Commit,
}

/// The text `std::str::from_utf8` gives for its error on `bytes`.
pub uninterp spec fn utf8_error_text(bytes: Seq<u8>) -> Seq<char>;

/// `std::str::from_utf8`: the text of `bytes` when they are UTF-8, else the error's text,
/// named `utf8_error_text` of the bytes.
#[verifier::external_body]
fn utf8_text(bytes: &[u8]) -> (r: Result<String, String>)
    ensures
        match r {
            Ok(s) => valid_utf8(bytes@) && s@ == decode_utf8(bytes@),
            Err(e) => !valid_utf8(bytes@) && e@ == utf8_error_text(bytes@),
        },
{
    match std::str::from_utf8(bytes) {
        Ok(s) => Ok(s.to_string()),
        Err(e) => Err(e.to_string()),
    }
}

/// The length of the topic name at the start of a body.
pub open spec fn name_len(b: Seq<u8>) -> int {
    u16_at(b, 0) as int
}

/// The bytes of the topic name at the start of a body.
pub open spec fn name_bytes(b: Seq<u8>) -> Seq<u8> {
    b.subrange(2, 2 + name_len(b))
}

/// An invalid-frame error with message `m`.
pub open spec fn invalid(r: BrokerResult<Request>, m: Seq<char>) -> bool {
    r matches Err(BrokerError::InvalidFrame(e)) && e@ == m
}

/// The error for a topic name that is not UTF-8.
pub open spec fn bad_name(r: BrokerResult<Request>, b: Seq<u8>) -> bool {
    invalid(r, "invalid topic name: "@ + utf8_error_text(name_bytes(b)))
}

/// The outcome of decoding a request with `api_key` and body `b`.
pub open spec fn decoded(api_key: u16, b: Seq<u8>, r: BrokerResult<Request>) -> bool {
    if api_key == API_PRODUCE {
        if b.len() < 2 {
            invalid(r, "produce body too short"@)
        } else if 2 + name_len(b) + 8 > b.len() {
            invalid(r, "produce body size mismatch"@)
        } else if !valid_utf8(name_bytes(b)) {
            bad_name(r, b)
        } else {
            let p = 2 + name_len(b);
            let kl = u32_at(b, p) as int;
            let vl = u32_at(b, p + 4) as int;
            if p + 8 + kl + vl > b.len() {
                invalid(r, "produce body size mismatch"@)
            } else {
                r matches Ok(Request::Produce { topic, key, value }) && topic@ == decode_utf8(
                    name_bytes(b),
                ) && key@ == b.subrange(p + 8, p + 8 + kl) && value@ == b.subrange(
                    p + 8 + kl,
                    p + 8 + kl + vl,
                )
            }
        }
    } else if api_key == API_FETCH {
        if b.len() < 2 {
            invalid(r, "fetch body too short"@)
        } else if 2 + name_len(b) + 12 > b.len() {
            invalid(r, "fetch body size mismatch"@)
        } else if !valid_utf8(name_bytes(b)) {
            bad_name(r, b)
        } else {
            let p = 2 + name_len(b);
            r matches Ok(Request::Fetch { topic, start_offset, max_bytes }) && topic@
                == decode_utf8(name_bytes(b)) && start_offset == u64_at(b, p) && max_bytes
                == u32_at(b, p + 8)
        }
    } else if api_key == API_LIST_OFFSETS {
        if b.len() < 2 {
            invalid(r, "list_offsets body too short"@)
        } else if 2 + name_len(b) > b.len() {
            invalid(r, "list_offsets body size mismatch"@)
        } else if !valid_utf8(name_bytes(b)) {
            bad_name(r, b)
        } else {
            r matches Ok(Request::ListOffsets { topic }) && topic@ == decode_utf8(name_bytes(b))
        }
    } else if api_key == API_COMMIT {
        if b.len() < 2 {
            invalid(r, "commit body too short"@)
        } else if 2 + name_len(b) + 8 > b.len() {
            invalid(r, "commit body size mismatch"@)
        } else {
            r matches Ok(Request::Commit)
        }
    } else {
        invalid(r, "unknown api_key: "@ + decimal(api_key as nat))
    }
}

fn invalid_frame_error(m: &str) -> (r: BrokerResult<Request>)
    ensures
        invalid(r, m@),
{
    Err(BrokerError::InvalidFrame(m.to_owned()))
}

/// The topic name at the start of `body`, which holds it whole.
fn topic_of(body: &[u8]) -> (r: BrokerResult<String>)
    requires
        body@.len() >= 2,
        2 + name_len(body@) <= body@.len(),
    ensures
        match r {
            Ok(s) => valid_utf8(name_bytes(body@)) && s@ == decode_utf8(name_bytes(body@)),
            Err(BrokerError::InvalidFrame(e)) => !valid_utf8(name_bytes(body@)) && e@
                == "invalid topic name: "@ + utf8_error_text(name_bytes(body@)),
            _ => false,
        },
{
    let n = read_u16(body, 0) as usize;
    let bytes = copy_range(body, 2, 2 + n);
    match utf8_text(bytes.as_slice()) {
        Ok(s) => Ok(s),
        Err(e) => {
            let mut m = "invalid topic name: ".to_owned();
            m.append(e.as_str());
            Err(BrokerError::InvalidFrame(m))
        },
    }
}

/// Checks and decodes the body of a request frame.
pub fn decode_request(frame: &Frame) -> (r: BrokerResult<Request>)
    ensures
        decoded(frame.api_key, frame.body@, r),
{
    let body = frame.body.as_slice();
    let len = body.len();
    if frame.api_key == API_PRODUCE {
        if len < 2 {
            return invalid_frame_error("produce body too short");
        }
        let n = read_u16(body, 0) as usize;
        if 2 + n + 8 > len {
            return invalid_frame_error("produce body size mismatch");
        }
        let topic = match topic_of(body) {
            Ok(t) => t,
            Err(e) => return Err(e),
        };
        let p = 2 + n;
        let kl = read_u32(body, p) as u64;
        let vl = read_u32(body, p + 4) as u64;
        if (p as u64) + 8 + kl + vl > len as u64 {
            return invalid_frame_error("produce body size mismatch");
        }
        let kl = kl as usize;
        let vl = vl as usize;
        let key = copy_range(body, p + 8, p + 8 + kl);
        let value = copy_range(body, p + 8 + kl, p + 8 + kl + vl);
        Ok(Request::Produce { topic, key, value })
    } else if frame.api_key == API_FETCH {
        if len < 2 {
            return invalid_frame_error("fetch body too short");
        }
        let n = read_u16(body, 0) as usize;
        if 2 + n + 12 > len {
            return invalid_frame_error("fetch body size mismatch");
        }
        let topic = match topic_of(body) {
            Ok(t) => t,
            Err(e) => return Err(e),
        };
        let p = 2 + n;
        let start_offset = read_u64(body, p);
        let max_bytes = read_u32(body, p + 8);
        Ok(Request::Fetch { topic, start_offset, max_bytes })
    } else if frame.api_key == API_LIST_OFFSETS {
        if len < 2 {
            return invalid_frame_error("list_offsets body too short");
        }
        let n = read_u16(body, 0) as usize;
        if 2 + n > len {
            return invalid_frame_error("list_offsets body size mismatch");
        }
        let topic = match topic_of(body) {
            Ok(t) => t,
            Err(e) => return Err(e),
        };
        Ok(Request::ListOffsets { topic })
    } else if frame.api_key == API_COMMIT {
        if len < 2 {
            return invalid_frame_error("commit body too short");
        }
        let n = read_u16(body, 0) as usize;
        if 2 + n + 8 > len {
            return invalid_frame_error("commit body size mismatch");
        }
        Ok(Request::Commit)
    } else {
        let mut m = "unknown api_key: ".to_owned();
        m.append(u64_text(frame.api_key as u64).as_str());
        Err(BrokerError::InvalidFrame(m))
    }
}

/// How many messages one fetch returns at most.
pub const MAX_FETCH_MESSAGES: usize = 64;

/// What reading one offset of a topic gave.
#[derive(Debug)]
pub enum FetchOutcome {
    Message { offset: u64, key: Vec<u8>, value: Vec<u8> },
    OutOfRange,
    TopicNotFound,
}

/// The messages gathered so far for a fetch request.
pub struct FetchBatch {
    correlation_id: u32,
    next: u64,
    rounds: usize,
    messages: Vec<(u64, Vec<u8>, Vec<u8>)>,
}

/// The state of a fetch in progress.
pub struct FetchBatchView {
    pub correlation_id: u32,
    pub next: u64,
    pub rounds: nat,
    pub messages: Seq<(u64, Vec<u8>, Vec<u8>)>,
}

impl View for FetchBatch {
    type V = FetchBatchView;

    closed spec fn view(&self) -> FetchBatchView {
        FetchBatchView {
            correlation_id: self.correlation_id,
            next: self.next,
            rounds: self.rounds as nat,
            messages: self.messages@,
        }
    }
}

/// The fetch response carrying `messages`.
pub open spec fn fetch_reply(
    correlation_id: u32,
    error_code: u32,
    messages: Seq<(u64, Vec<u8>, Vec<u8>)>,
) -> crate::broker::protocol::FrameView {
    crate::broker::protocol::response_view(
        correlation_id,
        API_FETCH,
        error_code,
        crate::wire::be32(messages.len() as u32) + crate::broker::protocol::message_records(messages),
    )
}

impl FetchBatch {
    /// A fetch that starts at `start_offset`.
    pub fn new(correlation_id: u32, start_offset: u64) -> (r: Self)
        ensures
            r@ == (FetchBatchView {
                correlation_id,
                next: start_offset,
                rounds: 0,
                messages: Seq::empty(),
            }),
    {
        FetchBatch { correlation_id, next: start_offset, rounds: 0, messages: Vec::new() }
    }

    /// The offset to read next, or nothing once the batch is full.
    pub fn next_offset(&self) -> (r: Option<u64>)
        ensures
            r == if self@.rounds < MAX_FETCH_MESSAGES {
                Some(self@.next)
            } else {
                None::<u64>
            },
    {
        if self.rounds < MAX_FETCH_MESSAGES {
            Some(self.next)
        } else {
            None
        }
    }

    /// Takes in what reading the next offset gave; returns the response when the fetch ends
    /// here.
    pub fn record(&mut self, outcome: FetchOutcome) -> (r: Option<Frame>)
        requires
            old(self)@.rounds < MAX_FETCH_MESSAGES,
            outcome matches FetchOutcome::Message { offset, .. } ==> offset < u64::MAX,
        ensures
            match outcome {
                FetchOutcome::Message { offset, key, value } => {
                    &&& r is None
                    &&& final(self)@ == (FetchBatchView {
                        next: (offset + 1) as u64,
                        rounds: old(self)@.rounds + 1,
                        messages: old(self)@.messages.push((offset, key, value)),
                        ..old(self)@
                    })
                },
                FetchOutcome::OutOfRange => {
                    &&& final(self)@ == old(self)@
                    &&& r matches Some(f) && f@ == if old(self)@.messages.len() == 0 {
                        fetch_reply(old(self)@.correlation_id, ERROR_OFFSET_OUT_OF_RANGE, Seq::empty())
                    } else {
                        fetch_reply(old(self)@.correlation_id, ERROR_NONE, old(self)@.messages)
                    }
                },
                FetchOutcome::TopicNotFound => {
                    &&& final(self)@ == old(self)@
                    &&& r matches Some(f) && f@ == fetch_reply(
                        old(self)@.correlation_id,
                        ERROR_OFFSET_OUT_OF_RANGE,
                        Seq::empty(),
                    )
                },
            },
    {
        match outcome {
            FetchOutcome::Message { offset, key, value } => {
                self.messages.push((offset, key, value));
                self.next = offset + 1;
                self.rounds = self.rounds + 1;
                None
            },
            FetchOutcome::OutOfRange => {
                if self.messages.len() == 0 {
                    Some(Frame::fetch_response(self.correlation_id, ERROR_OFFSET_OUT_OF_RANGE, &[]))
                } else {
                    Some(Frame::fetch_response(self.correlation_id, ERROR_NONE, self.messages.as_slice()))
                }
            },
            FetchOutcome::TopicNotFound => {
                Some(Frame::fetch_response(self.correlation_id, ERROR_OFFSET_OUT_OF_RANGE, &[]))
            },
        }
    }

    /// The response once the batch is full.
    pub fn finish(&self) -> (r: Frame)
        ensures
            r@ == fetch_reply(self@.correlation_id, ERROR_NONE, self@.messages),
    {
        Frame::fetch_response(self.correlation_id, ERROR_NONE, self.messages.as_slice())
    }
}

/// The response to a list-offsets request, from the topic's earliest and next offsets when
/// the topic exists; a missing topic reads as an empty one at offset 0.
pub fn list_offsets_reply(correlation_id: u32, offsets: Option<(Option<u64>, u64)>) -> (r: Frame)
    ensures
        r@ == crate::broker::protocol::response_view(
            correlation_id,
            API_LIST_OFFSETS,
            ERROR_NONE,
            match offsets {
                Some((Some(e), l)) => crate::wire::be64(e) + crate::wire::be64(l),
                Some((None, l)) => crate::wire::be64(0) + crate::wire::be64(l),
                None => crate::wire::be64(0) + crate::wire::be64(0),
            },
        ),
{
    let (earliest, latest) = match offsets {
        Some(o) => o,
        None => (Some(0), 0),
    };
    let earliest = match earliest {
        Some(e) => e,
        None => 0,
    };
    Frame::list_offsets_response(correlation_id, ERROR_NONE, earliest, latest)
}

/// A body that starts with the topic field of `topic` names that topic.
proof fn lemma_topic_field(topic: Seq<char>, rest: Seq<u8>)
    requires
        encode_utf8(topic).len() <= u16::MAX,
    ensures
        ({
            let b = topic_field(encode_utf8(topic)) + rest;
            &&& name_len(b) == encode_utf8(topic).len()
            &&& name_bytes(b) == encode_utf8(topic)
            &&& valid_utf8(name_bytes(b))
            &&& decode_utf8(name_bytes(b)) == topic
        }),
{
    let t = encode_utf8(topic);
    let b = topic_field(t) + rest;
    lemma_be16_roundtrip(t.len() as u16, t + rest, Seq::<u8>::empty());
    assert(Seq::<u8>::empty() + be16(t.len() as u16) + (t + rest) =~= b);
    assert(name_bytes(b) =~= t);
    encode_utf8_valid_utf8(topic);
    encode_utf8_decode_utf8(topic);
}

/// A produce request the client builds is decoded by the broker as the same topic, key and
/// value.
pub proof fn lemma_produce_request_roundtrip(
    topic: Seq<char>,
    key: Seq<u8>,
    value: Seq<u8>,
    r: BrokerResult<Request>,
)
    requires
        encode_utf8(topic).len() <= u16::MAX,
        key.len() <= u32::MAX,
        value.len() <= u32::MAX,
        decoded(API_PRODUCE, produce_body(encode_utf8(topic), key, value), r),
    ensures
        r matches Ok(Request::Produce { topic: t, key: k, value: v }) && t@ == topic && k@ == key
            && v@ == value,
{
    let tb = encode_utf8(topic);
    let tail = be32(key.len() as u32) + be32(value.len() as u32) + key + value;
    let b = produce_body(tb, key, value);
    assert(b =~= topic_field(tb) + tail);
    lemma_topic_field(topic, tail);
    let p = (2 + tb.len()) as int;
    let pre = topic_field(tb);
    assert(pre.len() == p);
    lemma_be32_roundtrip(key.len() as u32, be32(value.len() as u32) + key + value, pre);
    assert(pre + be32(key.len() as u32) + (be32(value.len() as u32) + key + value) =~= b);
    lemma_be32_roundtrip(value.len() as u32, key + value, pre + be32(key.len() as u32));
    assert(pre + be32(key.len() as u32) + be32(value.len() as u32) + (key + value) =~= b);
    assert(b.subrange(p + 8, p + 8 + key.len() as int) =~= key);
    assert(b.subrange(p + 8 + key.len() as int, p + 8 + key.len() as int + value.len() as int) =~= value);
}

/// A fetch request the client builds is decoded by the broker as the same topic, start
/// offset and byte limit.
pub proof fn lemma_fetch_request_roundtrip(
    topic: Seq<char>,
    start_offset: u64,
    max_bytes: u32,
    r: BrokerResult<Request>,
)
    requires
        encode_utf8(topic).len() <= u16::MAX,
        decoded(API_FETCH, fetch_body(encode_utf8(topic), start_offset, max_bytes), r),
    ensures
        r matches Ok(Request::Fetch { topic: t, start_offset: s, max_bytes: m }) && t@ == topic
            && s == start_offset && m == max_bytes,
{
    let tb = encode_utf8(topic);
    let tail = be64(start_offset) + be32(max_bytes);
    let b = fetch_body(tb, start_offset, max_bytes);
    assert(b =~= topic_field(tb) + tail);
    lemma_topic_field(topic, tail);
    let pre = topic_field(tb);
    lemma_be64_roundtrip(start_offset, be32(max_bytes), pre);
    assert(pre + be64(start_offset) + be32(max_bytes) =~= b);
    lemma_be32_roundtrip(max_bytes, Seq::<u8>::empty(), pre + be64(start_offset));
    assert(pre + be64(start_offset) + be32(max_bytes) + Seq::<u8>::empty() =~= b);
}

/// A list-offsets request the client builds is decoded by the broker as the same topic.
pub proof fn lemma_list_offsets_request_roundtrip(topic: Seq<char>, r: BrokerResult<Request>)
    requires
        encode_utf8(topic).len() <= u16::MAX,
        decoded(API_LIST_OFFSETS, list_offsets_body(encode_utf8(topic)), r),
    ensures
        r matches Ok(Request::ListOffsets { topic: t }) && t@ == topic,
{
    lemma_topic_field(topic, seq![1u8]);
}

} // verus!
