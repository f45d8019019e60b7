//! What a client makes of the broker's response bodies.
use vstd::prelude::*;

use crate::broker::error::{BrokerError, BrokerResult};
use crate::broker::protocol::{message_record, message_records, ERROR_NONE};
use crate::text::{decimal, u64_text};
use crate::wire::{
    be32, be64, copy_range, lemma_be32_roundtrip, lemma_be64_roundtrip, read_u32, read_u64,
    u32_at, u64_at,
};

verus! {

/// A fetched message: its offset, key and value.
pub type FetchedMessage = (u64, Vec<u8>, Vec<u8>);

/// A fetched message as plain values.
pub open spec fn fetched_view(m: FetchedMessage) -> (u64, Seq<u8>, Seq<u8>) {
    (m.0, m.1@, m.2@)
}

/// The messages of a fetch response body from `pos` on, at most `count` of them: each is
/// an offset, two lengths, the key and the value; reading stops at the first one that does
/// not fit.
pub open spec fn parse_records(b: Seq<u8>, pos: int, count: nat) -> Seq<(u64, Seq<u8>, Seq<u8>)>
    decreases count,
{
    if count == 0 || pos < 0 || pos + 16 > b.len() {
        Seq::empty()
    } else {
        let kl = u32_at(b, pos + 8) as int;
        let vl = u32_at(b, pos + 12) as int;
        let start = pos + 16;
        if start + kl + vl > b.len() {
            Seq::empty()
        } else {
            seq![(u64_at(b, pos), b.subrange(start, start + kl), b.subrange(start + kl, start + kl + vl))]
                + parse_records(b, start + kl + vl, (count - 1) as nat)
        }
    }
}

/// An invalid-frame error carrying `m`.
pub open spec fn invalid_frame_with<T>(r: BrokerResult<T>, m: Seq<char>) -> bool {
    r matches Err(BrokerError::InvalidFrame(e)) && e@ == m
}

/// The error message for a response that carries error code `code`.
pub open spec fn code_message(what: Seq<char>, code: u32) -> Seq<char> {
    what + " error: code="@ + decimal(code as nat)
}

fn error_with_code<T>(what: &str, code: u32) -> (r: BrokerResult<T>)
    ensures
        invalid_frame_with(r, code_message(what@, code)),
{
    let mut m = what.to_owned();
    m.append(" error: code=");
    m.append(u64_text(code as u64).as_str());
    Err(BrokerError::InvalidFrame(m))
}

fn too_short<T>(m: &str) -> (r: BrokerResult<T>)
    ensures
        invalid_frame_with(r, m@),
{
    Err(BrokerError::InvalidFrame(m.to_owned()))
}

/// The offset a produce response reports.
pub fn parse_produce_response(body: &[u8]) -> (r: BrokerResult<u64>)
    ensures
        if body@.len() < 12 {
            invalid_frame_with(r, "produce response too short"@)
        } else if u32_at(body@, 0) != ERROR_NONE {
            invalid_frame_with(r, code_message("produce"@, u32_at(body@, 0)))
        } else {
            r == Ok::<u64, BrokerError>(u64_at(body@, 4))
        },
{
    if body.len() < 12 {
        return too_short("produce response too short");
    }
    let code = read_u32(body, 0);
    if code != ERROR_NONE {
        return error_with_code("produce", code);
    }
    Ok(read_u64(body, 4))
}

/// The messages a fetch response carries.
pub fn parse_fetch_response(body: &[u8]) -> (r: BrokerResult<Vec<FetchedMessage>>)
    ensures
        if body@.len() < 12 {
            invalid_frame_with(r, "fetch response too short"@)
        } else if u32_at(body@, 0) != ERROR_NONE {
            invalid_frame_with(r, code_message("fetch"@, u32_at(body@, 0)))
        } else {
            r matches Ok(ms) && ms@.map_values(|m: FetchedMessage| fetched_view(m)) == parse_records(
                body@,
                8,
                u32_at(body@, 4) as nat,
            )
        },
{
    if body.len() < 12 {
        return too_short("fetch response too short");
    }
    let code = read_u32(body, 0);
    if code != ERROR_NONE {
        return error_with_code("fetch", code);
    }
    let count = read_u32(body, 4);
    let n = body.len();
    let mut messages: Vec<FetchedMessage> = Vec::new();
    let mut pos: usize = 8;
    let mut left: u32 = count;
    while left > 0
        invariant
            n == body@.len(),
            8 <= pos <= n,
            messages@.map_values(|m: FetchedMessage| fetched_view(m)) + parse_records(
                body@,
                pos as int,
                left as nat,
            ) == parse_records(body@, 8, count as nat),
        ensures
            messages@.map_values(|m: FetchedMessage| fetched_view(m)) == parse_records(
                body@,
                8,
                count as nat,
            ),
        decreases left,
    {
        let ghost before = messages@.map_values(|m: FetchedMessage| fetched_view(m));
        if n - pos < 16 {
            assert(parse_records(body@, pos as int, left as nat) =~= Seq::<(u64, Seq<u8>, Seq<u8>)>::empty());
            assert(before + Seq::<(u64, Seq<u8>, Seq<u8>)>::empty() =~= before);
            break;
        }
        let offset = read_u64(body, pos);
        let kl = read_u32(body, pos + 8) as u64;
        let vl = read_u32(body, pos + 12) as u64;
        let start = pos + 16;
        if kl + vl > (n - start) as u64 {
            assert(parse_records(body@, pos as int, left as nat) =~= Seq::<(u64, Seq<u8>, Seq<u8>)>::empty());
            assert(before + Seq::<(u64, Seq<u8>, Seq<u8>)>::empty() =~= before);
            break;
        }
        let kl = kl as usize;
        let vl = vl as usize;
        let key = copy_range(body, start, start + kl);
        let value = copy_range(body, start + kl, start + kl + vl);
        let ghost m = (offset, key, value);
        messages.push((offset, key, value));
        proof {
            assert(messages@.map_values(|m: FetchedMessage| fetched_view(m)) =~= before.push(
                fetched_view(m),
            ));
        }
        pos = start + kl + vl;
        left = left - 1;
    }
    Ok(messages)
}

/// The earliest and next offsets a list-offsets response reports.
pub fn parse_list_offsets_response(body: &[u8]) -> (r: BrokerResult<(u64, u64)>)
    ensures
        if body@.len() < 20 {
            invalid_frame_with(r, "list_offsets response too short"@)
        } else if u32_at(body@, 0) != ERROR_NONE {
            invalid_frame_with(r, code_message("list_offsets"@, u32_at(body@, 0)))
        } else {
            r == Ok::<(u64, u64), BrokerError>((u64_at(body@, 4), u64_at(body@, 12)))
        },
{
    if body.len() < 20 {
        return too_short("list_offsets response too short");
    }
    let code = read_u32(body, 0);
    if code != ERROR_NONE {
        return error_with_code("list_offsets", code);
    }
    Ok((read_u64(body, 4), read_u64(body, 12)))
}

/// Whether a commit response reports success.
pub fn parse_commit_response(body: &[u8]) -> (r: BrokerResult<()>)
    ensures
        if body@.len() < 4 {
            invalid_frame_with(r, "commit response too short"@)
        } else if u32_at(body@, 0) != ERROR_NONE {
            invalid_frame_with(r, code_message("commit"@, u32_at(body@, 0)))
        } else {
            r is Ok
        },
{
    if body.len() < 4 {
        return too_short("commit response too short");
    }
    let code = read_u32(body, 0);
    if code != ERROR_NONE {
        return error_with_code("commit", code);
    }
    Ok(())
}

proof fn lemma_records_front(ms: Seq<FetchedMessage>)
    requires
        ms.len() > 0,
    ensures
        message_records(ms) == message_record(ms[0]) + message_records(ms.drop_first()),
    decreases ms.len(),
{
    if ms.len() == 1 {
        assert(ms.drop_last() =~= Seq::<FetchedMessage>::empty());
        assert(ms.drop_first() =~= Seq::<FetchedMessage>::empty());
        assert(message_records(ms.drop_first()) =~= Seq::<u8>::empty());
        assert(message_records(ms) =~= message_record(ms[0]));
    } else {
        lemma_records_front(ms.drop_last());
        assert(ms.drop_last().drop_first() =~= ms.drop_first().drop_last());
        assert(ms.drop_first().last() == ms.last());
        assert(ms.drop_last()[0] == ms[0]);
        assert(message_records(ms) =~= message_record(ms[0]) + message_records(ms.drop_first()));
    }
}

proof fn lemma_record_fields_at(pre: Seq<u8>, m: FetchedMessage, rest: Seq<u8>)
    requires
        m.1@.len() <= u32::MAX,
        m.2@.len() <= u32::MAX,
    ensures
        ({
            let b = pre + message_record(m) + rest;
            let p = pre.len() as int;
            let start = p + 16;
            let kl = m.1@.len() as int;
            let vl = m.2@.len() as int;
            &&& b.len() == p + 16 + kl + vl + rest.len()
            &&& u64_at(b, p) == m.0
            &&& u32_at(b, p + 8) == kl
            &&& u32_at(b, p + 12) == vl
            &&& b.subrange(start, start + kl) == m.1@
            &&& b.subrange(start + kl, start + kl + vl) == m.2@
        }),
{
    let k = m.1@;
    let v = m.2@;
    let kl = k.len() as u32;
    let vl = v.len() as u32;
    let b = pre + message_record(m) + rest;
    assert(b =~= pre + be64(m.0) + (be32(kl) + be32(vl) + k + v + rest));
    lemma_be64_roundtrip(m.0, be32(kl) + be32(vl) + k + v + rest, pre);
    assert(b =~= (pre + be64(m.0)) + be32(kl) + (be32(vl) + k + v + rest));
    lemma_be32_roundtrip(kl, be32(vl) + k + v + rest, pre + be64(m.0));
    assert(b =~= (pre + be64(m.0) + be32(kl)) + be32(vl) + (k + v + rest));
    lemma_be32_roundtrip(vl, k + v + rest, pre + be64(m.0) + be32(kl));
    let start: int = pre.len() as int + 16;
    assert(b.subrange(start, start + k.len() as int) =~= k);
    assert(b.subrange(start + k.len() as int, start + k.len() + v.len() as int) =~= v);
}

#[verifier::spinoff_prover]
#[verifier::rlimit(40)]
proof fn lemma_parse_records(pre: Seq<u8>, ms: Seq<FetchedMessage>)
    requires
        forall|i: int|
            0 <= i < ms.len() ==> #[trigger] ms[i].1@.len() <= u32::MAX && ms[i].2@.len()
                <= u32::MAX,
    ensures
        parse_records(pre + message_records(ms), pre.len() as int, ms.len()) == ms.map_values(
            |m: FetchedMessage| fetched_view(m),
        ),
    decreases ms.len(),
{
    if ms.len() == 0 {
        assert(ms.map_values(|m: FetchedMessage| fetched_view(m)) =~= Seq::<
            (u64, Seq<u8>, Seq<u8>),
        >::empty());
    } else {
        let m = ms[0];
        let tail = ms.drop_first();
        lemma_records_front(ms);
        let rest = message_records(tail);
        let b = pre + message_records(ms);
        assert(b =~= pre + message_record(m) + rest);
        lemma_record_fields_at(pre, m, rest);
        let pre2 = pre + message_record(m);
        assert(b =~= pre2 + rest);
        assert forall|i: int| 0 <= i < tail.len() implies #[trigger] tail[i].1@.len() <= u32::MAX
            && tail[i].2@.len() <= u32::MAX by {
            assert(tail[i] == ms[i + 1]);
            assert(ms[i + 1].1@.len() <= u32::MAX && ms[i + 1].2@.len() <= u32::MAX);
        }
        lemma_parse_records(pre2, tail);
        assert(ms.map_values(|m: FetchedMessage| fetched_view(m)) =~= seq![fetched_view(m)]
            + tail.map_values(|m: FetchedMessage| fetched_view(m)));
    }
}

/// A fetch response built from messages parses back to exactly those messages.
#[verifier::rlimit(40)]
pub proof fn lemma_fetch_body_roundtrip(ms: Seq<FetchedMessage>)
    requires
        ms.len() <= u32::MAX,
        forall|i: int|
            0 <= i < ms.len() ==> #[trigger] ms[i].1@.len() <= u32::MAX && ms[i].2@.len()
                <= u32::MAX,
    ensures
        ({
            let body = be32(ERROR_NONE) + be32(ms.len() as u32) + message_records(ms);
            &&& body.len() >= 8
            &&& u32_at(body, 0) == ERROR_NONE
            &&& u32_at(body, 4) == ms.len()
            &&& parse_records(body, 8, ms.len()) == ms.map_values(
                |m: FetchedMessage| fetched_view(m),
            )
        }),
{
    let n = ms.len() as u32;
    let body = be32(ERROR_NONE) + be32(n) + message_records(ms);
    assert(body =~= Seq::<u8>::empty() + be32(ERROR_NONE) + (be32(n) + message_records(ms)));
    lemma_be32_roundtrip(ERROR_NONE, be32(n) + message_records(ms), Seq::<u8>::empty());
    lemma_be32_roundtrip(n, message_records(ms), be32(ERROR_NONE));
    lemma_parse_records(be32(ERROR_NONE) + be32(n), ms);
}

} // verus!
