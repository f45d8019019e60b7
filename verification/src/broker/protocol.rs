//! The broker's framed binary protocol: building request and response frames,
//! encoding them, and decoding a byte stream back into frames.
use vstd::prelude::*;
use vstd::string::StringSliceAdditionalSpecFns;

use crate::broker::error::{invalid_frame, BrokerError, BrokerResult};
use crate::text::{hex8, hex8_text, joined};
use crate::wire::{lemma_be16_roundtrip, lemma_be32_roundtrip, be16, be32, be64, copy_range, push_be16, push_be32, push_be64, push_bytes, read_u16, read_u32, u16_at, u32_at};

verus! {

pub const MAGIC_BYTES: u32 = 0xCAFEBABE;

pub const FRAME_HEADER_SIZE: usize = 16;

pub const MAX_FRAME_SIZE: usize = 16 * 1024 * 1024;

pub const API_PRODUCE: u16 = 0;

pub const API_FETCH: u16 = 1;

pub const API_LIST_OFFSETS: u16 = 2;

pub const API_COMMIT: u16 = 3;

pub const ERROR_NONE: u32 = 0;

pub const ERROR_TOPIC_NOT_FOUND: u32 = 1;

pub const ERROR_OFFSET_OUT_OF_RANGE: u32 = 2;

pub const ERROR_CORRUPT_DATA: u32 = 3;

pub const ERROR_INTERNAL: u32 = 4;

/// One protocol frame: a 16-byte header followed by a body.
#[derive(Debug)]
pub struct Frame {
    pub api_key: u16,
    pub api_version: u16,
    pub correlation_id: u32,
    pub body: Vec<u8>,
}

/// The mathematical content of a frame.
pub struct FrameView {
    pub api_key: u16,
    pub api_version: u16,
    pub correlation_id: u32,
    pub body: Seq<u8>,
}

impl View for Frame {
    type V = FrameView;

    open spec fn view(&self) -> FrameView {
        FrameView {
            api_key: self.api_key,
            api_version: self.api_version,
            correlation_id: self.correlation_id,
            body: self.body@,
        }
    }
}

/// The views of a sequence of frames.
pub open spec fn frames_view(v: Seq<Frame>) -> Seq<FrameView> {
    v.map_values(|f: Frame| f@)
}

/// A topic name as it appears at the start of a request body: its length, then its bytes.
pub open spec fn topic_field(topic: Seq<u8>) -> Seq<u8> {
    be16(topic.len() as u16) + topic
}

/// The body of a produce request.
pub open spec fn produce_body(topic: Seq<u8>, key: Seq<u8>, value: Seq<u8>) -> Seq<u8> {
    topic_field(topic) + be32(key.len() as u32) + be32(value.len() as u32) + key + value
}

/// The body of a fetch request.
pub open spec fn fetch_body(topic: Seq<u8>, start_offset: u64, max_bytes: u32) -> Seq<u8> {
    topic_field(topic) + be64(start_offset) + be32(max_bytes)
}

/// The body of a list-offsets request.
pub open spec fn list_offsets_body(topic: Seq<u8>) -> Seq<u8> {
    topic_field(topic) + seq![1u8]
}

/// The body of a commit request.
pub open spec fn commit_body(topic: Seq<u8>, offset: u64) -> Seq<u8> {
    topic_field(topic) + be64(offset)
}

/// The encoding of one fetched message inside a fetch response.
pub open spec fn message_record(m: (u64, Vec<u8>, Vec<u8>)) -> Seq<u8> {
    be64(m.0) + be32(m.1@.len() as u32) + be32(m.2@.len() as u32) + m.1@ + m.2@
}

/// The encodings of fetched messages, one after another.
pub open spec fn message_records(ms: Seq<(u64, Vec<u8>, Vec<u8>)>) -> Seq<u8>
    decreases ms.len(),
{
    if ms.len() == 0 {
        seq![]
    } else {
        message_records(ms.drop_last()) + message_record(ms.last())
    }
}

/// A response frame: the error code, then the body.
pub open spec fn response_view(correlation_id: u32, api_key: u16, error_code: u32, body: Seq<u8>) -> FrameView {
    FrameView { api_key, api_version: 1, correlation_id, body: be32(error_code) + body }
}

/// The bytes of an encoded frame.
#[verifier::opaque]
pub open spec fn frame_bytes(f: FrameView) -> Seq<u8> {
    be32(MAGIC_BYTES) + be32((FRAME_HEADER_SIZE + f.body.len()) as u32) + be16(f.api_key) + be16(
        f.api_version,
    ) + be32(f.correlation_id) + f.body
}

fn topic_prefix(topic: &str) -> (body: Vec<u8>)
    ensures
        body@ == topic_field(topic.spec_bytes()),
{
    let topic_bytes = topic.as_bytes();
    let mut body = Vec::new();
    push_be16(&mut body, topic_bytes.len() as u16);
    push_bytes(&mut body, topic_bytes);
    body
}

impl Frame {
    /// A produce request for `key`/`value` on `topic`.
    pub fn produce(correlation_id: u32, topic: &str, key: &[u8], value: &[u8]) -> (f: Self)
        ensures
            f@ == (FrameView {
                api_key: API_PRODUCE,
                api_version: 1,
                correlation_id,
                body: produce_body(topic.spec_bytes(), key@, value@),
            }),
    {
        let mut body = topic_prefix(topic);
        push_be32(&mut body, key.len() as u32);
        push_be32(&mut body, value.len() as u32);
        push_bytes(&mut body, key);
        push_bytes(&mut body, value);
        Self { api_key: API_PRODUCE, api_version: 1, correlation_id, body }
    }

    /// A fetch request for `topic` starting at `start_offset`.
    pub fn fetch(correlation_id: u32, topic: &str, start_offset: u64, max_bytes: u32) -> (f: Self)
        ensures
            f@ == (FrameView {
                api_key: API_FETCH,
                api_version: 1,
                correlation_id,
                body: fetch_body(topic.spec_bytes(), start_offset, max_bytes),
            }),
    {
        let mut body = topic_prefix(topic);
        push_be64(&mut body, start_offset);
        push_be32(&mut body, max_bytes);
        Self { api_key: API_FETCH, api_version: 1, correlation_id, body }
    }

    /// A list-offsets request for `topic`.
    pub fn list_offsets(correlation_id: u32, topic: &str) -> (f: Self)
        ensures
            f@ == (FrameView {
                api_key: API_LIST_OFFSETS,
                api_version: 1,
                correlation_id,
                body: list_offsets_body(topic.spec_bytes()),
            }),
    {
        let mut body = topic_prefix(topic);
        body.push(1);
        assert(body@ =~= list_offsets_body(topic.spec_bytes()));
        Self { api_key: API_LIST_OFFSETS, api_version: 1, correlation_id, body }
    }

    /// A commit request of `offset` on `topic`.
    pub fn commit(correlation_id: u32, topic: &str, offset: u64) -> (f: Self)
        ensures
            f@ == (FrameView {
                api_key: API_COMMIT,
                api_version: 1,
                correlation_id,
                body: commit_body(topic.spec_bytes(), offset),
            }),
    {
        let mut body = topic_prefix(topic);
        push_be64(&mut body, offset);
        Self { api_key: API_COMMIT, api_version: 1, correlation_id, body }
    }

    /// A response frame carrying `error_code` and then `body`.
    pub fn response(correlation_id: u32, api_key: u16, error_code: u32, body: Vec<u8>) -> (f: Self)
        ensures
            f@ == response_view(correlation_id, api_key, error_code, body@),
    {
        let mut full_body = Vec::new();
        push_be32(&mut full_body, error_code);
        push_bytes(&mut full_body, body.as_slice());
        Self { api_key, api_version: 1, correlation_id, body: full_body }
    }

    /// The response to a produce request: the offset the message was stored at.
    pub fn produce_response(correlation_id: u32, error_code: u32, offset: u64) -> (f: Self)
        ensures
            f@ == response_view(correlation_id, API_PRODUCE, error_code, be64(offset)),
    {
        let mut body = Vec::new();
        push_be64(&mut body, offset);
        Self::response(correlation_id, API_PRODUCE, error_code, body)
    }

    /// The response to a fetch request: the message count, then each message.
    pub fn fetch_response(correlation_id: u32, error_code: u32, messages: &[(u64, Vec<u8>, Vec<u8>)]) -> (f: Self)
        ensures
            f@ == response_view(
                correlation_id,
                API_FETCH,
                error_code,
                be32(messages@.len() as u32) + message_records(messages@),
            ),
    {
        let mut body = Vec::new();
        push_be32(&mut body, messages.len() as u32);
        let n = messages.len();
        let mut i: usize = 0;
        while i < n
            invariant
                n == messages@.len(),
                i <= n,
                body@ == be32(n as u32) + message_records(messages@.subrange(0, i as int)),
            decreases n - i,
        {
            let (offset, key, value) = &messages[i];
            push_be64(&mut body, *offset);
            push_be32(&mut body, key.len() as u32);
            push_be32(&mut body, value.len() as u32);
            push_bytes(&mut body, key.as_slice());
            push_bytes(&mut body, value.as_slice());
            proof {
                let s = messages@.subrange(0, i + 1);
                assert(s.drop_last() =~= messages@.subrange(0, i as int));
                assert(s.last() == messages@[i as int]);
            }
            i = i + 1;
            assert(body@ =~= be32(n as u32) + message_records(messages@.subrange(0, i as int)));
        }
        assert(messages@.subrange(0, n as int) =~= messages@);
        Self::response(correlation_id, API_FETCH, error_code, body)
    }

    /// The response to a list-offsets request.
    pub fn list_offsets_response(correlation_id: u32, error_code: u32, earliest: u64, latest: u64) -> (f: Self)
        ensures
            f@ == response_view(
                correlation_id,
                API_LIST_OFFSETS,
                error_code,
                be64(earliest) + be64(latest),
            ),
    {
        let mut body = Vec::new();
        push_be64(&mut body, earliest);
        push_be64(&mut body, latest);
        proof {
            assert(body@ =~= be64(earliest) + be64(latest));
        }
        Self::response(correlation_id, API_LIST_OFFSETS, error_code, body)
    }

    /// The response to a commit request.
    pub fn commit_response(correlation_id: u32, error_code: u32) -> (f: Self)
        ensures
            f@ == response_view(correlation_id, API_COMMIT, error_code, Seq::<u8>::empty()),
    {
        Self::response(correlation_id, API_COMMIT, error_code, Vec::new())
    }

    /// The wire bytes of this frame; never fails.
    pub fn encode(&self) -> (r: BrokerResult<Vec<u8>>)
        requires
            self.body@.len() + FRAME_HEADER_SIZE <= usize::MAX,
        ensures
            r matches Ok(bytes) && bytes@ == frame_bytes(self@),
    {
        proof {
            reveal(frame_bytes);
        }
        let total_size = FRAME_HEADER_SIZE + self.body.len();
        let mut buf = Vec::new();
        push_be32(&mut buf, MAGIC_BYTES);
        push_be32(&mut buf, total_size as u32);
        push_be16(&mut buf, self.api_key);
        push_be16(&mut buf, self.api_version);
        push_be32(&mut buf, self.correlation_id);
        push_bytes(&mut buf, self.body.as_slice());
        Ok(buf)
    }
}

/// Whether the first 16 bytes of `b` form an acceptable frame header.
pub open spec fn header_ok(b: Seq<u8>) -> bool {
    &&& u32_at(b, 0) == MAGIC_BYTES
    &&& u32_at(b, 4) <= MAX_FRAME_SIZE
    &&& u32_at(b, 4) >= FRAME_HEADER_SIZE
}

/// The frame whose header starts `b` and whose body fills the rest of its declared length.
pub open spec fn frame_at(b: Seq<u8>) -> FrameView {
    FrameView {
        api_key: u16_at(b, 8),
        api_version: u16_at(b, 10),
        correlation_id: u32_at(b, 12),
        body: b.subrange(FRAME_HEADER_SIZE as int, u32_at(b, 4) as int),
    }
}

/// Decodes a byte stream: the complete frames at its front and the bytes left over,
/// or `None` when a header is invalid.
pub open spec fn parse_stream(b: Seq<u8>) -> Option<(Seq<FrameView>, Seq<u8>)>
    decreases b.len(),
{
    if b.len() < FRAME_HEADER_SIZE {
        Some((seq![], b))
    } else if !header_ok(b) {
        None
    } else if b.len() < u32_at(b, 4) {
        Some((seq![], b))
    } else {
        match parse_stream(b.subrange(u32_at(b, 4) as int, b.len() as int)) {
            Some(p) => Some((seq![frame_at(b)] + p.0, p.1)),
            None => None,
        }
    }
}

/// The message for the first invalid header of a byte stream: a wrong magic number, a
/// declared length beyond the largest frame, or one shorter than a header.
pub open spec fn stream_error(b: Seq<u8>) -> Seq<char>
    decreases b.len(),
{
    if b.len() < FRAME_HEADER_SIZE {
        Seq::empty()
    } else if u32_at(b, 0) != MAGIC_BYTES {
        "invalid magic: "@ + hex8(u32_at(b, 0))
    } else if u32_at(b, 4) > MAX_FRAME_SIZE {
        "total_len exceeds MAX_FRAME_SIZE"@
    } else if u32_at(b, 4) < FRAME_HEADER_SIZE {
        "total_len too small"@
    } else if b.len() < u32_at(b, 4) {
        Seq::empty()
    } else {
        stream_error(b.subrange(u32_at(b, 4) as int, b.len() as int))
    }
}

/// `rest` decoded, with `frames` decoded before it.
pub open spec fn after_frames(frames: Seq<FrameView>, rest: Option<(Seq<FrameView>, Seq<u8>)>) -> Option<(Seq<FrameView>, Seq<u8>)> {
    match rest {
        Some(p) => Some((frames + p.0, p.1)),
        None => None,
    }
}

/// Decoding a stream with more bytes after it decodes the same frames first, then whatever
/// the bytes left over decode to together with the further bytes.
pub proof fn lemma_parse_stream_append(b: Seq<u8>, c: Seq<u8>)
    requires
        parse_stream(b) is Some,
    ensures
        parse_stream(b + c) == after_frames(parse_stream(b).unwrap().0, parse_stream(parse_stream(b).unwrap().1 + c)),
    decreases b.len(),
{
    let bc = b + c;
    if b.len() < FRAME_HEADER_SIZE || b.len() < u32_at(b, 4) {
        assert(parse_stream(b).unwrap().1 == b);
        match parse_stream(bc) {
            Some(p) => {
                assert(seq![] + p.0 =~= p.0);
            },
            None => {},
        }
    } else {
        let n = u32_at(b, 4) as int;
        assert(u32_at(bc, 0) == u32_at(b, 0));
        assert(u32_at(bc, 4) == u32_at(b, 4));
        assert(u16_at(bc, 8) == u16_at(b, 8));
        assert(u16_at(bc, 10) == u16_at(b, 10));
        assert(u32_at(bc, 12) == u32_at(b, 12));
        assert(frame_at(bc).body =~= frame_at(b).body);
        let tail = b.subrange(n, b.len() as int);
        assert(bc.subrange(n, bc.len() as int) =~= tail + c);
        lemma_parse_stream_append(tail, c);
        let p = parse_stream(tail).unwrap();
        match parse_stream(p.1 + c) {
            Some(q) => {
                assert(seq![frame_at(b)] + (p.0 + q.0) =~= (seq![frame_at(b)] + p.0) + q.0);
            },
            None => {},
        }
    }
}

/// The bytes of `cs` one after another.
pub open spec fn concat_chunks(cs: Seq<Seq<u8>>) -> Seq<u8>
    decreases cs.len(),
{
    if cs.len() == 0 {
        Seq::empty()
    } else {
        cs[0] + concat_chunks(cs.drop_first())
    }
}

/// The frames of `fs` one after another.
pub open spec fn concat_frames(fs: Seq<Seq<FrameView>>) -> Seq<FrameView>
    decreases fs.len(),
{
    if fs.len() == 0 {
        Seq::empty()
    } else {
        fs[0] + concat_frames(fs.drop_first())
    }
}

/// Feeding the chunks `cs` in turn to a decoder holding `pending` returns the frames `outs`,
/// one list per chunk, and leaves `last` pending, with no feed refused.
pub open spec fn feeds(pending: Seq<u8>, cs: Seq<Seq<u8>>, outs: Seq<Seq<FrameView>>, last: Seq<u8>) -> bool
    decreases cs.len(),
{
    if cs.len() == 0 {
        outs.len() == 0 && last == pending
    } else {
        &&& outs.len() == cs.len()
        &&& pending.len() + cs[0].len() <= 2 * MAX_FRAME_SIZE
        &&& parse_stream(pending + cs[0]) matches Some(p) && p.0 == outs[0] && feeds(
            p.1,
            cs.drop_first(),
            outs.drop_first(),
            last,
        )
    }
}

/// Feeding chunks one at a time yields, all told, what decoding their bytes at once yields:
/// the same frames in the same order and the same bytes left pending.
pub proof fn lemma_feeds_decode_in_order(pending: Seq<u8>, cs: Seq<Seq<u8>>, outs: Seq<Seq<FrameView>>, last: Seq<u8>)
    requires
        incomplete(pending),
        feeds(pending, cs, outs, last),
    ensures
        parse_stream(pending + concat_chunks(cs)) == Some((concat_frames(outs), last)),
    decreases cs.len(),
{
    if cs.len() == 0 {
        assert(pending + concat_chunks(cs) =~= pending);
        assert(concat_frames(outs) =~= Seq::<FrameView>::empty());
        lemma_parse_stream_pending(pending);
    } else {
        let p = parse_stream(pending + cs[0]).unwrap();
        lemma_leftover_incomplete(pending + cs[0]);
        lemma_feeds_decode_in_order(p.1, cs.drop_first(), outs.drop_first(), last);
        lemma_parse_stream_append(pending + cs[0], concat_chunks(cs.drop_first()));
        assert(pending + cs[0] + concat_chunks(cs.drop_first()) =~= pending + concat_chunks(cs));
    }
}

/// What a decoder holds pending decodes to no frame and stays pending: fewer bytes than a
/// header, or than the length its valid header declares.
pub open spec fn incomplete(b: Seq<u8>) -> bool {
    b.len() < FRAME_HEADER_SIZE || (header_ok(b) && b.len() < u32_at(b, 4))
}

/// What decoding leaves over is incomplete.
proof fn lemma_leftover_incomplete(b: Seq<u8>)
    requires
        parse_stream(b) is Some,
    ensures
        incomplete(parse_stream(b).unwrap().1),
    decreases b.len(),
{
    if b.len() < FRAME_HEADER_SIZE || b.len() < u32_at(b, 4) {
    } else {
        lemma_leftover_incomplete(b.subrange(u32_at(b, 4) as int, b.len() as int));
    }
}

proof fn lemma_parse_stream_pending(b: Seq<u8>)
    ensures
        incomplete(b) ==> parse_stream(b) == Some((Seq::<FrameView>::empty(), b)),
{
}

/// The encodings of `fs` one after another.
pub open spec fn frames_bytes(fs: Seq<FrameView>) -> Seq<u8>
    decreases fs.len(),
{
    if fs.len() == 0 {
        Seq::empty()
    } else {
        frame_bytes(fs[0]) + frames_bytes(fs.drop_first())
    }
}

proof fn lemma_cons_stream(b: Seq<u8>, f: FrameView, rest: Seq<u8>, more: Seq<FrameView>)
    requires
        parse_stream(b) == after_frames(seq![f], parse_stream(rest)),
        parse_stream(rest) == Some((more, Seq::<u8>::empty())),
    ensures
        parse_stream(b) == Some((seq![f] + more, Seq::<u8>::empty())),
{
}

/// The encodings of frames one after another decode to those frames, with nothing left.
pub proof fn lemma_frames_roundtrip(fs: Seq<FrameView>)
    requires
        forall|i: int| 0 <= i < fs.len() ==> #[trigger] fs[i].body.len() + FRAME_HEADER_SIZE <= MAX_FRAME_SIZE,
    ensures
        parse_stream(frames_bytes(fs)) == Some((fs, Seq::<u8>::empty())),
    decreases fs.len(),
{
    if fs.len() == 0 {
    } else {
        let f = fs[0];
        let more = fs.drop_first();
        let rest = frames_bytes(more);
        assert(f.body.len() + FRAME_HEADER_SIZE <= MAX_FRAME_SIZE);
        lemma_frames_roundtrip(more);
        lemma_frame_roundtrip(f, rest);
        lemma_cons_stream(frame_bytes(f) + rest, f, rest, more);
        assert(seq![f] + more =~= fs);
    }
}

/// Frames encoded one after another and fed to a new decoder in chunks, each feed
/// accepted, come out all told as exactly those frames in order, with nothing left pending.
pub proof fn lemma_chunked_frames_in_order(fs: Seq<FrameView>, cs: Seq<Seq<u8>>, outs: Seq<Seq<FrameView>>, last: Seq<u8>)
    requires
        forall|i: int| 0 <= i < fs.len() ==> #[trigger] fs[i].body.len() + FRAME_HEADER_SIZE <= MAX_FRAME_SIZE,
        concat_chunks(cs) == frames_bytes(fs),
        feeds(Seq::empty(), cs, outs, last),
    ensures
        concat_frames(outs) == fs,
        last == Seq::<u8>::empty(),
{
    lemma_feeds_decode_in_order(Seq::empty(), cs, outs, last);
    assert(Seq::<u8>::empty() + concat_chunks(cs) =~= concat_chunks(cs));
    lemma_frames_roundtrip(fs);
}

/// A stream that decodes without error has no invalid header in any of its prefixes either.
proof fn lemma_prefix_parses(x: Seq<u8>, y: Seq<u8>)
    requires
        parse_stream(x + y) is Some,
    ensures
        parse_stream(x) is Some,
    decreases x.len(),
{
    let xy = x + y;
    if x.len() >= FRAME_HEADER_SIZE {
        assert(u32_at(xy, 0) == u32_at(x, 0));
        assert(u32_at(xy, 4) == u32_at(x, 4));
        if x.len() >= u32_at(x, 4) {
            let n = u32_at(x, 4) as int;
            assert(xy.subrange(n, xy.len() as int) =~= x.subrange(n, x.len() as int) + y);
            lemma_prefix_parses(x.subrange(n, x.len() as int), y);
        }
    }
}

/// What a decoder returns and keeps, chunk by chunk, when it is fed `cs` while holding
/// `pending` and no feed fails.
pub open spec fn feed_all(pending: Seq<u8>, cs: Seq<Seq<u8>>) -> (Seq<Seq<FrameView>>, Seq<u8>)
    decreases cs.len(),
{
    if cs.len() == 0 {
        (Seq::empty(), pending)
    } else {
        let p = parse_stream(pending + cs[0]).unwrap();
        let r = feed_all(p.1, cs.drop_first());
        (seq![p.0] + r.0, r.1)
    }
}

proof fn lemma_feeds_succeed(pending: Seq<u8>, cs: Seq<Seq<u8>>)
    requires
        incomplete(pending),
        parse_stream(pending + concat_chunks(cs)) is Some,
        forall|i: int| 0 <= i < cs.len() ==> (#[trigger] cs[i]).len() <= MAX_FRAME_SIZE,
    ensures
        feeds(pending, cs, feed_all(pending, cs).0, feed_all(pending, cs).1),
    decreases cs.len(),
{
    if cs.len() > 0 {
        let rest = cs.drop_first();
        assert(pending + concat_chunks(cs) =~= (pending + cs[0]) + concat_chunks(rest));
        lemma_prefix_parses(pending + cs[0], concat_chunks(rest));
        lemma_parse_stream_append(pending + cs[0], concat_chunks(rest));
        let p = parse_stream(pending + cs[0]).unwrap();
        lemma_leftover_incomplete(pending + cs[0]);
        assert(cs[0].len() <= MAX_FRAME_SIZE);
        assert forall|i: int| 0 <= i < rest.len() implies (#[trigger] rest[i]).len() <= MAX_FRAME_SIZE by {
            assert(rest[i] == cs[i + 1]);
        }
        lemma_feeds_succeed(p.1, rest);
        let r = feed_all(p.1, rest);
        assert((seq![p.0] + r.0).drop_first() =~= r.0);
    }
}

/// Frames encoded one after another, cut into chunks of at most `MAX_FRAME_SIZE` bytes and
/// fed in turn to a new decoder, are never refused: each feed succeeds, and all told they
/// come out as exactly those frames in order, with nothing left pending.
pub proof fn lemma_valid_chunks_never_fail(fs: Seq<FrameView>, cs: Seq<Seq<u8>>)
    requires
        forall|i: int| 0 <= i < fs.len() ==> #[trigger] fs[i].body.len() + FRAME_HEADER_SIZE <= MAX_FRAME_SIZE,
        concat_chunks(cs) == frames_bytes(fs),
        forall|i: int| 0 <= i < cs.len() ==> (#[trigger] cs[i]).len() <= MAX_FRAME_SIZE,
    ensures
        feeds(Seq::empty(), cs, feed_all(Seq::empty(), cs).0, feed_all(Seq::empty(), cs).1),
        concat_frames(feed_all(Seq::empty(), cs).0) == fs,
        feed_all(Seq::empty(), cs).1 == Seq::<u8>::empty(),
{
    lemma_frames_roundtrip(fs);
    assert(Seq::<u8>::empty() + concat_chunks(cs) =~= concat_chunks(cs));
    lemma_feeds_succeed(Seq::empty(), cs);
    lemma_chunked_frames_in_order(fs, cs, feed_all(Seq::empty(), cs).0, feed_all(Seq::empty(), cs).1);
}

/// Decoding the encoding of a frame, followed by any further bytes, yields that frame first
/// and then whatever the further bytes decode to: the frame survives the round trip exactly.
pub proof fn lemma_frame_roundtrip(f: FrameView, rest: Seq<u8>)
    requires
        f.body.len() + FRAME_HEADER_SIZE <= MAX_FRAME_SIZE,
    ensures
        parse_stream(frame_bytes(f) + rest) == after_frames(seq![f], parse_stream(rest)),
{
    reveal(frame_bytes);
    let total = (FRAME_HEADER_SIZE + f.body.len()) as u32;
    let b = frame_bytes(f) + rest;
    let e = Seq::<u8>::empty();
    let p1 = be32(MAGIC_BYTES);
    let p2 = p1 + be32(total);
    let p3 = p2 + be16(f.api_key);
    let p4 = p3 + be16(f.api_version);
    let p5 = p4 + be32(f.correlation_id);
    assert(b =~= e + be32(MAGIC_BYTES) + (be32(total) + be16(f.api_key) + be16(f.api_version)
        + be32(f.correlation_id) + f.body + rest));
    lemma_be32_roundtrip(MAGIC_BYTES, be32(total) + be16(f.api_key) + be16(f.api_version) + be32(
        f.correlation_id) + f.body + rest, e);
    assert(b =~= p1 + be32(total) + (be16(f.api_key) + be16(f.api_version) + be32(f.correlation_id)
        + f.body + rest));
    lemma_be32_roundtrip(total, be16(f.api_key) + be16(f.api_version) + be32(f.correlation_id)
        + f.body + rest, p1);
    assert(b =~= p2 + be16(f.api_key) + (be16(f.api_version) + be32(f.correlation_id) + f.body
        + rest));
    lemma_be16_roundtrip(f.api_key, be16(f.api_version) + be32(f.correlation_id) + f.body + rest, p2);
    assert(b =~= p3 + be16(f.api_version) + (be32(f.correlation_id) + f.body + rest));
    lemma_be16_roundtrip(f.api_version, be32(f.correlation_id) + f.body + rest, p3);
    assert(b =~= p4 + be32(f.correlation_id) + (f.body + rest));
    lemma_be32_roundtrip(f.correlation_id, f.body + rest, p4);
    assert(u32_at(b, 4) == total);
    assert(b.subrange(FRAME_HEADER_SIZE as int, total as int) =~= f.body);
    assert(b.subrange(total as int, b.len() as int) =~= rest);
    assert(frame_at(b) == f);
}

struct ParsedHeader {
    api_key: u16,
    api_version: u16,
    correlation_id: u32,
}

#[derive(PartialEq, Eq)]
enum DecodeState {
    ReadingHeader,
    ReadingBody,
}

/// Incremental decoder that turns a stream of bytes into frames.
pub struct FrameDecoder {
    buffer: Vec<u8>,
    state: DecodeState,
    expected_size: usize,
    header: Option<ParsedHeader>,
}

/// Whether a decoder state agrees with the bytes `b` that it has not consumed yet.
spec fn state_agrees(state: DecodeState, expected: usize, header: Option<ParsedHeader>, b: Seq<u8>) -> bool {
    match state {
        DecodeState::ReadingHeader => header is None && expected == FRAME_HEADER_SIZE,
        DecodeState::ReadingBody => {
            &&& b.len() >= FRAME_HEADER_SIZE
            &&& header_ok(b)
            &&& expected == u32_at(b, 4)
            &&& header matches Some(h) && h.api_key == u16_at(b, 8) && h.api_version == u16_at(
                b,
                10,
            ) && h.correlation_id == u32_at(b, 12)
        },
    }
}

impl View for FrameDecoder {
    type V = Seq<u8>;

    /// The bytes received and not yet decoded into a frame.
    closed spec fn view(&self) -> Seq<u8> {
        self.buffer@
    }
}

impl FrameDecoder {
    /// The decoder's internal state is consistent with its pending bytes.
    pub closed spec fn wf(&self) -> bool {
        &&& state_agrees(self.state, self.expected_size, self.header, self.buffer@)
        &&& self.buffer@.len() <= 2 * MAX_FRAME_SIZE
    }

    /// A decoder with nothing pending.
    pub fn new() -> (d: Self)
        ensures
            d.wf(),
            d@ == Seq::<u8>::empty(),
    {
        Self {
            buffer: Vec::new(),
            state: DecodeState::ReadingHeader,
            expected_size: FRAME_HEADER_SIZE,
            header: None,
        }
    }

    fn reset(&mut self)
        ensures
            final(self).wf(),
            final(self)@ == Seq::<u8>::empty(),
    {
        self.buffer = Vec::new();
        self.state = DecodeState::ReadingHeader;
        self.expected_size = FRAME_HEADER_SIZE;
        self.header = None;
    }

    /// Appends `data` to the pending bytes and decodes every complete frame.
    /// When the pending bytes exceed twice the largest frame, or a header is invalid,
    /// everything pending is dropped and an `InvalidFrame` error is returned.
    pub fn feed_bytes(&mut self, data: &[u8]) -> (r: BrokerResult<Vec<Frame>>)
        requires
            old(self).wf(),
        ensures
            final(self).wf(),
            ({
                let b = old(self)@ + data@;
                if b.len() > 2 * MAX_FRAME_SIZE {
                    r matches Err(BrokerError::InvalidFrame(m)) && m@ == "buffer exceeded maximum size"@
                        && final(self)@ == Seq::<u8>::empty()
                } else {
                    match parse_stream(b) {
                        None => r matches Err(BrokerError::InvalidFrame(m)) && m@ == stream_error(b)
                            && final(self)@ == Seq::<u8>::empty(),
                        Some(p) => r matches Ok(frames) && frames_view(frames@) == p.0
                            && final(self)@ == p.1,
                    }
                }
            }),
    {
        let ghost b0 = self.buffer@;
        push_bytes(&mut self.buffer, data);
        let ghost b = self.buffer@;
        assert(b =~= old(self)@ + data@);
        if self.buffer.len() > MAX_FRAME_SIZE * 2 {
            self.reset();
            return Err(invalid_frame("buffer exceeded maximum size"));
        }
        proof {
            if self.state == DecodeState::ReadingBody {
                assert(b.subrange(0, b0.len() as int) =~= b0);
                assert(u32_at(b, 0) == u32_at(b0, 0));
                assert(u32_at(b, 4) == u32_at(b0, 4));
                assert(u16_at(b, 8) == u16_at(b0, 8));
                assert(u16_at(b, 10) == u16_at(b0, 10));
                assert(u32_at(b, 12) == u32_at(b0, 12));
            }
            assert(b.subrange(0, b.len() as int) =~= b);
        }
        let mut frames: Vec<Frame> = Vec::new();
        let mut pos: usize = 0;
        let len = self.buffer.len();
        loop
            invariant_except_break
                b == old(self)@ + data@,
                len == self.buffer@.len(),
                self.buffer@ == b,
                pos <= len,
                len <= 2 * MAX_FRAME_SIZE,
                state_agrees(self.state, self.expected_size, self.header, b.subrange(pos as int, len as int)),
                parse_stream(b) == after_frames(frames_view(frames@), parse_stream(b.subrange(pos as int, len as int))),
                stream_error(b) == stream_error(b.subrange(pos as int, len as int)),
            ensures
                b == old(self)@ + data@,
                self.buffer@ == b,
                pos <= len,
                len == b.len(),
                state_agrees(self.state, self.expected_size, self.header, b.subrange(pos as int, len as int)),
                parse_stream(b.subrange(pos as int, len as int)) == Some((Seq::<FrameView>::empty(), b.subrange(pos as int, len as int))),
                parse_stream(b) == after_frames(frames_view(frames@), parse_stream(b.subrange(pos as int, len as int))),
            decreases len - pos, (if self.state == DecodeState::ReadingHeader { 1int } else { 0int }),
        {
            let ghost rest = b.subrange(pos as int, len as int);
            match self.state {
                DecodeState::ReadingHeader => {
                    if len - pos < FRAME_HEADER_SIZE {
                        break;
                    }
                    let magic = read_u32(self.buffer.as_slice(), pos);
                    proof {
                        assert(u32_at(rest, 0) == magic);
                    }
                    if magic != MAGIC_BYTES {
                        assert(!header_ok(rest));
                        assert(parse_stream(rest) is None);
                        let msg = joined("invalid magic: ", hex8_text(magic).as_str());
                        self.reset();
                        return Err(BrokerError::InvalidFrame(msg));
                    }
                    let total_len = read_u32(self.buffer.as_slice(), pos + 4) as usize;
                    proof {
                        assert(u32_at(rest, 4) == total_len);
                    }
                    if total_len > MAX_FRAME_SIZE {
                        assert(!header_ok(rest));
                        assert(parse_stream(rest) is None);
                        self.reset();
                        return Err(invalid_frame("total_len exceeds MAX_FRAME_SIZE"));
                    }
                    let api_key = read_u16(self.buffer.as_slice(), pos + 8);
                    let api_version = read_u16(self.buffer.as_slice(), pos + 10);
                    let correlation_id = read_u32(self.buffer.as_slice(), pos + 12);
                    proof {
                        assert(u16_at(rest, 8) == api_key);
                        assert(u16_at(rest, 10) == api_version);
                        assert(u32_at(rest, 12) == correlation_id);
                    }
                    if total_len < FRAME_HEADER_SIZE {
                        self.reset();
                        return Err(invalid_frame("total_len too small"));
                    }
                    self.header = Some(ParsedHeader { api_key, api_version, correlation_id });
                    self.state = DecodeState::ReadingBody;
                    self.expected_size = total_len;
                },
                DecodeState::ReadingBody => {
                    let total_len = self.expected_size;
                    if len - pos < total_len {
                        break;
                    }
                    let header = match self.header.take() {
                        Some(h) => h,
                        None => {
                            self.reset();
                            return Err(invalid_frame("no header state"));
                        },
                    };
                    let body = copy_range(self.buffer.as_slice(), pos + FRAME_HEADER_SIZE, pos + total_len);
                    let ghost old_frames = frames@;
                    frames.push(
                        Frame {
                            api_key: header.api_key,
                            api_version: header.api_version,
                            correlation_id: header.correlation_id,
                            body,
                        },
                    );
                    proof {
                        assert(body@ =~= rest.subrange(FRAME_HEADER_SIZE as int, total_len as int));
                        assert(frames@[frames@.len() - 1]@ == frame_at(rest));
                        assert(frames_view(frames@) =~= frames_view(old_frames).push(frame_at(rest)));
                        let next = b.subrange((pos + total_len) as int, len as int);
                        assert(rest.subrange(total_len as int, rest.len() as int) =~= next);
                        assert(parse_stream(rest) == after_frames(seq![frame_at(rest)], parse_stream(next)));
                        assert(stream_error(rest) == stream_error(next));
                        match parse_stream(next) {
                            Some(p) => {
                                assert(frames_view(old_frames) + (seq![frame_at(rest)] + p.0)
                                    =~= frames_view(frames@) + p.0);
                            },
                            None => {},
                        }
                    }
                    pos = pos + total_len;
                    self.state = DecodeState::ReadingHeader;
                    self.expected_size = FRAME_HEADER_SIZE;
                    self.header = None;
                },
            }
        }
        let remaining = copy_range(self.buffer.as_slice(), pos, len);
        self.buffer = remaining;
        proof {
            assert(frames_view(frames@) + Seq::<FrameView>::empty() =~= frames_view(frames@));
        }
        Ok(frames)
    }
}

} // verus!
