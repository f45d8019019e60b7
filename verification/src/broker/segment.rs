//! The on-disk record format of a log segment: a CRC, the message's offset and lengths,
//! then its key and value. The file handling around it lives with the caller; this module
//! encodes records, checks them, and finds the intact ones in a segment's bytes.
use vstd::prelude::*;

use crate::broker::error::{BrokerError, BrokerResult};
use crate::text::{decimal, hex8, hex8_text, u64_text};
use crate::wire::{
    be32, be64, lemma_be32_roundtrip, lemma_be64_roundtrip, push_be32, push_be64, push_bytes,
    read_u32, read_u64, u32_at, u64_at,
};

verus! {

/// The size of a record header.
pub const RECORD_HEADER_SIZE: usize = 20;

/// The default size at which a segment is sealed.
pub const DEFAULT_MAX_SEGMENT_SIZE: u64 = 536870912;

/// The polynomial of the record checksum.
pub const CRC32C_POLYNOMIAL: u32 = 0x1EDC6F41;

/// How large a segment may grow before it is sealed.
#[derive(Debug, Clone, Copy)]
pub struct SegmentConfig {
    pub max_size: u64,
}

impl Default for SegmentConfig {
    fn default() -> (r: Self)
        ensures
            r.max_size == DEFAULT_MAX_SEGMENT_SIZE,
    {
        SegmentConfig { max_size: DEFAULT_MAX_SEGMENT_SIZE }
    }
}

/// The header fields of one record.
#[derive(Debug, Clone, Copy)]
pub struct MessageHeader {
    pub offset: u64,
    pub key_len: u32,
    pub value_len: u32,
}

/// One step of the bitwise checksum: shift right, folding in the polynomial when a one
/// drops out.
pub open spec fn crc_shift(c: u32, polynomial: u32) -> u32 {
    if c & 1 != 0 {
        (c >> 1u32) ^ polynomial
    } else {
        c >> 1u32
    }
}

/// `n` checksum steps.
pub open spec fn crc_shifts(c: u32, polynomial: u32, n: nat) -> u32
    decreases n,
{
    if n == 0 {
        c
    } else {
        crc_shifts(crc_shift(c, polynomial), polynomial, (n - 1) as nat)
    }
}

/// The checksum state after one more byte.
pub open spec fn crc_byte(crc: u32, byte: u8, polynomial: u32) -> u32 {
    crc_shifts(crc ^ (byte as u32), polynomial, 8)
}

/// The checksum state after `bytes`.
pub open spec fn crc_fold(crc: u32, bytes: Seq<u8>) -> u32
    decreases bytes.len(),
{
    if bytes.len() == 0 {
        crc
    } else {
        crc_byte(crc_fold(crc, bytes.drop_last()), bytes.last(), CRC32C_POLYNOMIAL)
    }
}

/// The checksum of `bytes`: all ones in, every byte folded, complemented out.
pub open spec fn crc32c(bytes: Seq<u8>) -> u32 {
    !crc_fold(0xFFFF_FFFFu32, bytes)
}

/// The bytes a record's checksum covers: offset, lengths, key and value.
pub open spec fn record_body(offset: u64, key: Seq<u8>, value: Seq<u8>) -> Seq<u8> {
    be64(offset) + be32(key.len() as u32) + be32(value.len() as u32) + key + value
}

/// The bytes of a record.
pub open spec fn record_bytes(offset: u64, key: Seq<u8>, value: Seq<u8>) -> Seq<u8> {
    be32(crc32c(record_body(offset, key, value))) + record_body(offset, key, value)
}

/// The bytes `compute_crc32c` covers: at most the first 16 bytes of the header, then the
/// key and the value, cut after `input_len` bytes.
pub open spec fn crc_input(header: Seq<u8>, key: Seq<u8>, value: Seq<u8>, input_len: int) -> Seq<u8> {
    let all = header.take(if header.len() < 16 { header.len() as int } else { 16 }) + key + value;
    all.take(if input_len <= all.len() { input_len } else { all.len() as int })
}

/// Folds one byte into the checksum state.
pub fn update_crc32c_byte(crc: u32, byte: u8, polynomial: u32) -> (r: u32)
    ensures
        r == crc_shifts(crc ^ (byte as u32), polynomial, 8),
{
    let mut c = crc ^ (byte as u32);
    let ghost c0 = c;
    let mut i: u32 = 0;
    while i < 8
        invariant
            i <= 8,
            crc_shifts(c, polynomial, (8 - i) as nat) == crc_shifts(c0, polynomial, 8),
        decreases 8 - i,
    {
        if (c & 1) != 0 {
            c = (c >> 1) ^ polynomial;
        } else {
            c = c >> 1;
        }
        i = i + 1;
    }
    c
}

proof fn lemma_fold_push(crc: u32, s: Seq<u8>, b: u8)
    ensures
        crc_fold(crc, s.push(b)) == crc_byte(crc_fold(crc, s), b, CRC32C_POLYNOMIAL),
{
    assert(s.push(b).drop_last() =~= s);
}

/// Folds the bytes of `src` into `crc` while fewer than `limit` bytes have been folded in all.
fn crc_feed(crc: &mut u32, processed: &mut usize, src: &[u8], limit: usize, ghost_done: Ghost<Seq<u8>>)
    requires
        *old(processed) <= limit,
        *old(crc) == crc_fold(0xFFFF_FFFFu32, ghost_done@.take(*old(processed) as int)),
        *old(processed) == ghost_done@.len() || *old(processed) == limit,
        *old(processed) <= ghost_done@.len(),
    ensures
        *final(processed) <= limit,
        *final(processed) <= ghost_done@.len() + src@.len(),
        *final(crc) == crc_fold(0xFFFF_FFFFu32, (ghost_done@ + src@).take(*final(processed) as int)),
        *final(processed) == ghost_done@.len() + src@.len() || *final(processed) == limit,
{
    let ghost all = ghost_done@ + src@;
    let ghost d = ghost_done@.len();
    assert(all.take(*processed as int) =~= ghost_done@.take(*processed as int));
    let mut i: usize = 0;
    while i < src.len()
        invariant
            i <= src@.len(),
            all == ghost_done@ + src@,
            d == ghost_done@.len(),
            *processed <= limit,
            *processed <= d + i,
            *processed == d + i || *processed == limit,
            *crc == crc_fold(0xFFFF_FFFFu32, all.take(*processed as int)),
        ensures
            *processed <= limit,
            *processed <= d + src@.len(),
            *processed == d + src@.len() || *processed == limit,
            *crc == crc_fold(0xFFFF_FFFFu32, all.take(*processed as int)),
        decreases src@.len() - i,
    {
        if *processed >= limit {
            break;
        }
        proof {
            lemma_fold_push(0xFFFF_FFFFu32, all.take(*processed as int), src@[i as int]);
            assert(all.take(*processed as int).push(src@[i as int]) =~= all.take(*processed + 1));
        }
        *crc = update_crc32c_byte(*crc, src[i], CRC32C_POLYNOMIAL);
        *processed = *processed + 1;
        i = i + 1;
    }
}

/// The checksum of the first `input_len` bytes of the first 16 bytes of `header`, then `key`,
/// then `value`.
pub fn compute_crc32c(header: &[u8], key: &[u8], value: &[u8], input_len: usize) -> (r: u32)
    ensures
        r == crc32c(crc_input(header@, key@, value@, input_len as int)),
{
    let mut crc: u32 = 0xFFFF_FFFF;
    let mut processed: usize = 0;
    let h = if header.len() < 16 { header.len() } else { 16 };
    let mut head: Vec<u8> = Vec::new();
    let mut i: usize = 0;
    while i < h
        invariant
            h <= header@.len(),
            i <= h,
            head@ == header@.subrange(0, i as int),
        decreases h - i,
    {
        head.push(header[i]);
        i = i + 1;
        assert(head@ =~= header@.subrange(0, i as int));
    }
    assert(Seq::<u8>::empty().take(0) =~= Seq::<u8>::empty());
    crc_feed(&mut crc, &mut processed, head.as_slice(), input_len, Ghost(Seq::<u8>::empty()));
    let ghost s1 = Seq::<u8>::empty() + head@;
    crc_feed(&mut crc, &mut processed, key, input_len, Ghost(s1));
    let ghost s2 = s1 + key@;
    crc_feed(&mut crc, &mut processed, value, input_len, Ghost(s2));
    proof {
        assert(s2 + value@ =~= header@.take(h as int) + key@ + value@);
    }
    !crc
}

/// The record of a message at `offset`.
pub fn encode_record(offset: u64, key: &[u8], value: &[u8]) -> (r: Vec<u8>)
    requires
        key@.len() <= u32::MAX,
        value@.len() <= u32::MAX,
        20 + key@.len() + value@.len() <= usize::MAX,
    ensures
        r@ == record_bytes(offset, key@, value@),
{
    let mut fields: Vec<u8> = Vec::new();
    push_be64(&mut fields, offset);
    push_be32(&mut fields, key.len() as u32);
    push_be32(&mut fields, value.len() as u32);
    let crc = compute_crc32c(fields.as_slice(), key, value, 16 + key.len() + value.len());
    proof {
        assert(fields@.take(16) =~= fields@);
        assert((fields@ + key@ + value@).take((16 + key@.len() + value@.len()) as int) =~= record_body(
            offset,
            key@,
            value@,
        ));
    }
    let mut r: Vec<u8> = Vec::new();
    push_be32(&mut r, crc);
    push_bytes(&mut r, fields.as_slice());
    push_bytes(&mut r, key);
    push_bytes(&mut r, value);
    assert(r@ =~= record_bytes(offset, key@, value@));
    r
}

/// The header fields of the record at `pos`.
pub open spec fn header_at(b: Seq<u8>, pos: int) -> MessageHeader {
    MessageHeader { offset: u64_at(b, pos + 4), key_len: u32_at(b, pos + 12), value_len: u32_at(b, pos + 16) }
}

/// The size of the record at `pos`, header included.
pub open spec fn record_size_at(b: Seq<u8>, pos: int) -> int {
    20 + u32_at(b, pos + 12) + u32_at(b, pos + 16)
}

/// The record at `pos` carries the checksum of its contents.
pub open spec fn record_intact(b: Seq<u8>, pos: int) -> bool {
    u32_at(b, pos) == crc32c(b.subrange(pos + 4, pos + record_size_at(b, pos)))
}

/// The intact records of `b` from `pos` on, each with its position: records follow one
/// another until one does not fit; a record whose checksum fails is skipped.
pub open spec fn scan_from(b: Seq<u8>, pos: int) -> Seq<(MessageHeader, u64)>
    decreases b.len() - pos,
{
    if pos < 0 || pos + 20 > b.len() || pos + record_size_at(b, pos) > b.len() {
        Seq::empty()
    } else {
        (if record_intact(b, pos) {
            seq![(header_at(b, pos), pos as u64)]
        } else {
            Seq::empty()
        }) + scan_from(b, pos + record_size_at(b, pos))
    }
}

/// The entries with every position moved on by `d`.
pub open spec fn shifted(s: Seq<(MessageHeader, u64)>, d: int) -> Seq<(MessageHeader, u64)> {
    s.map_values(|e: (MessageHeader, u64)| (e.0, (e.1 + d) as u64))
}

/// The checksum and header fields at the start of `buf`.
pub fn parse_record_header(buf: &[u8]) -> (r: (u32, MessageHeader))
    requires
        buf@.len() >= 20,
    ensures
        r.0 == u32_at(buf@, 0),
        r.1 == header_at(buf@, 0),
{
    let crc = read_u32(buf, 0);
    let offset = read_u64(buf, 4);
    let key_len = read_u32(buf, 12);
    let value_len = read_u32(buf, 16);
    (crc, MessageHeader { offset, key_len, value_len })
}

/// The message of the mismatch error.
pub open spec fn crc_mismatch_message(offset: u64, stored: u32, computed: u32) -> Seq<char> {
    "CRC mismatch at offset "@ + decimal(offset as nat) + ": stored="@ + hex8(stored)
        + " computed="@ + hex8(computed)
}

/// Checks a record read back as its 20-byte header, key and value.
pub fn check_record(header: &[u8], key: Vec<u8>, value: Vec<u8>) -> (r: BrokerResult<
    (MessageHeader, Vec<u8>, Vec<u8>),
>)
    requires
        header@.len() == 20,
        16 + key@.len() + value@.len() <= usize::MAX,
    ensures
        ({
            let computed = crc32c(header@.subrange(4, 20) + key@ + value@);
            if computed == u32_at(header@, 0) {
                r == Ok::<(MessageHeader, Vec<u8>, Vec<u8>), BrokerError>(
                    (header_at(header@, 0), key, value),
                )
            } else {
                r matches Err(BrokerError::CorruptData(m)) && m@ == crc_mismatch_message(
                    u64_at(header@, 4),
                    u32_at(header@, 0),
                    computed,
                )
            }
        }),
{
    let (stored, hdr) = parse_record_header(header);
    let mut fields: Vec<u8> = Vec::new();
    let mut i: usize = 4;
    while i < 20
        invariant
            header@.len() == 20,
            4 <= i <= 20,
            fields@ == header@.subrange(4, i as int),
        decreases 20 - i,
    {
        fields.push(header[i]);
        i = i + 1;
        assert(fields@ =~= header@.subrange(4, i as int));
    }
    let actual = compute_crc32c(fields.as_slice(), key.as_slice(), value.as_slice(), 16 + key.len() + value.len());
    proof {
        assert(fields@.take(16) =~= fields@);
        assert((fields@ + key@ + value@).take((16 + key@.len() + value@.len()) as int) =~= fields@
            + key@ + value@);
    }
    if actual != stored {
        let mut m = "CRC mismatch at offset ".to_owned();
        m.append(u64_text(hdr.offset).as_str());
        m.append(": stored=");
        m.append(hex8_text(stored).as_str());
        m.append(" computed=");
        m.append(hex8_text(actual).as_str());
        return Err(BrokerError::CorruptData(m));
    }
    Ok((hdr, key, value))
}

/// The intact records of a segment's bytes, each with its position.
pub fn scan_records(bytes: &[u8]) -> (r: Vec<(MessageHeader, u64)>)
    requires
        bytes@.len() <= u64::MAX,
    ensures
        r@ == scan_from(bytes@, 0),
{
    let n = bytes.len();
    let mut entries: Vec<(MessageHeader, u64)> = Vec::new();
    let mut pos: usize = 0;
    while pos <= n && n - pos >= 20
        invariant
            n == bytes@.len(),
            n <= u64::MAX,
            pos <= n,
            entries@ + scan_from(bytes@, pos as int) == scan_from(bytes@, 0),
        ensures
            entries@ == scan_from(bytes@, 0),
        decreases n - pos,
    {
        let ghost before = entries@;
        let (stored, hdr) = parse_record_header_at(bytes, pos);
        let size: u64 = 20 + hdr.key_len as u64 + hdr.value_len as u64;
        if size > (n - pos) as u64 {
            assert(scan_from(bytes@, pos as int) =~= Seq::<(MessageHeader, u64)>::empty());
            assert(entries@ =~= entries@ + scan_from(bytes@, pos as int));
            break;
        }
        let size = size as usize;
        let body = crate::wire::copy_range(bytes, pos + 4, pos + size);
        let actual = compute_crc32c(&[], body.as_slice(), &[], body.len());
        proof {
            assert(Seq::<u8>::empty().take(0) + body@ + Seq::<u8>::empty() =~= body@);
            assert(body@.take(body@.len() as int) =~= body@);
        }
        if actual == stored {
            entries.push((hdr, pos as u64));
        }
        pos = pos + size;
        proof {
            assert(entries@ + scan_from(bytes@, pos as int) =~= before + scan_from(bytes@, pos - size));
        }
    }
    entries
}

/// The checksum and header fields of the record at `pos`.
fn parse_record_header_at(buf: &[u8], pos: usize) -> (r: (u32, MessageHeader))
    requires
        pos + 20 <= buf@.len(),
    ensures
        r.0 == u32_at(buf@, pos as int),
        r.1 == header_at(buf@, pos as int),
{
    assert(buf@.len() == buf.len());
    let crc = read_u32(buf, pos);
    let offset = read_u64(buf, pos + 4);
    let key_len = read_u32(buf, pos + 12);
    let value_len = read_u32(buf, pos + 16);
    (crc, MessageHeader { offset, key_len, value_len })
}

proof fn lemma_shifted_cons(e: (MessageHeader, u64), s: Seq<(MessageHeader, u64)>, d: int)
    ensures
        shifted(seq![e] + s, d) == seq![(e.0, (e.1 + d) as u64)] + shifted(s, d),
{
    assert(shifted(seq![e] + s, d) =~= seq![(e.0, (e.1 + d) as u64)] + shifted(s, d));
}

/// Scanning behind a prefix finds what scanning the rest alone finds, moved by the prefix.
pub proof fn lemma_scan_behind(pre: Seq<u8>, rest: Seq<u8>, p: int)
    requires
        0 <= p,
        pre.len() + rest.len() <= u64::MAX,
    ensures
        scan_from(pre + rest, pre.len() + p) == shifted(scan_from(rest, p), pre.len() as int),
    decreases rest.len() - p,
{
    let b = pre + rest;
    let q = pre.len() + p;
    if q + 20 > b.len() {
        assert(scan_from(rest, p) =~= Seq::<(MessageHeader, u64)>::empty());
        assert(shifted(scan_from(rest, p), pre.len() as int) =~= Seq::<(MessageHeader, u64)>::empty());
    } else {
        assert(u32_at(b, q + 12) == u32_at(rest, p + 12));
        assert(u32_at(b, q + 16) == u32_at(rest, p + 16));
        let size = record_size_at(rest, p);
        assert(record_size_at(b, q) == size);
        if q + size > b.len() {
            assert(scan_from(rest, p) =~= Seq::<(MessageHeader, u64)>::empty());
            assert(shifted(scan_from(rest, p), pre.len() as int) =~= Seq::<(MessageHeader, u64)>::empty());
        } else {
            assert(u32_at(b, q) == u32_at(rest, p));
            assert(u64_at(b, q + 4) == u64_at(rest, p + 4));
            assert(b.subrange(q + 4, q + size) =~= rest.subrange(p + 4, p + size));
            assert(header_at(b, q) == header_at(rest, p));
            lemma_scan_behind(pre, rest, p + size);
            let head = if record_intact(rest, p) {
                seq![(header_at(rest, p), p as u64)]
            } else {
                Seq::empty()
            };
            assert(scan_from(rest, p) == head + scan_from(rest, p + size));
            if record_intact(rest, p) {
                lemma_shifted_cons((header_at(rest, p), p as u64), scan_from(rest, p + size), pre.len() as int);
                assert(scan_from(b, q) =~= shifted(scan_from(rest, p), pre.len() as int));
            } else {
                assert(head + scan_from(rest, p + size) =~= scan_from(rest, p + size));
                assert(scan_from(b, q) =~= shifted(scan_from(rest, p), pre.len() as int));
            }
        }
    }
}

/// The header of the record of a message.
pub open spec fn encoded_header(offset: u64, key: Seq<u8>, value: Seq<u8>) -> MessageHeader {
    MessageHeader { offset, key_len: key.len() as u32, value_len: value.len() as u32 }
}

/// A record reads back as the message it encodes, and its checksum holds.
pub proof fn lemma_record_fields(offset: u64, key: Seq<u8>, value: Seq<u8>, rest: Seq<u8>)
    requires
        key.len() <= u32::MAX,
        value.len() <= u32::MAX,
    ensures
        ({
            let b = record_bytes(offset, key, value) + rest;
            &&& b.len() == 20 + key.len() + value.len() + rest.len()
            &&& header_at(b, 0) == encoded_header(offset, key, value)
            &&& record_size_at(b, 0) == 20 + key.len() + value.len()
            &&& record_intact(b, 0)
            &&& u32_at(b, 0) == crc32c(b.subrange(4, 20) + key + value)
        }),
{
    let body = record_body(offset, key, value);
    let crc = crc32c(body);
    let b = record_bytes(offset, key, value) + rest;
    let kl = key.len() as u32;
    let vl = value.len() as u32;
    assert(b =~= Seq::<u8>::empty() + be32(crc) + (body + rest));
    lemma_be32_roundtrip(crc, body + rest, Seq::<u8>::empty());
    assert(b =~= be32(crc) + be64(offset) + (be32(kl) + be32(vl) + key + value + rest));
    lemma_be64_roundtrip(offset, be32(kl) + be32(vl) + key + value + rest, be32(crc));
    assert(b =~= (be32(crc) + be64(offset)) + be32(kl) + (be32(vl) + key + value + rest));
    lemma_be32_roundtrip(kl, be32(vl) + key + value + rest, be32(crc) + be64(offset));
    assert(b =~= (be32(crc) + be64(offset) + be32(kl)) + be32(vl) + (key + value + rest));
    lemma_be32_roundtrip(vl, key + value + rest, be32(crc) + be64(offset) + be32(kl));
    assert(b.subrange(4, (20 + key.len() + value.len()) as int) =~= body);
    assert(b.subrange(4, 20) + key + value =~= body);
}

/// Scanning a record followed by other bytes finds the record's message at position 0, then
/// what the other bytes hold, moved past the record.
pub proof fn lemma_scan_record(offset: u64, key: Seq<u8>, value: Seq<u8>, rest: Seq<u8>)
    requires
        key.len() <= u32::MAX,
        value.len() <= u32::MAX,
        20 + key.len() + value.len() + rest.len() <= u64::MAX,
    ensures
        scan_from(record_bytes(offset, key, value) + rest, 0) == seq![
            (encoded_header(offset, key, value), 0u64),
        ] + shifted(scan_from(rest, 0), (20 + key.len() + value.len()) as int),
{
    let r = record_bytes(offset, key, value);
    lemma_record_fields(offset, key, value, rest);
    lemma_scan_behind(r, rest, 0);
    assert(r.len() == 20 + key.len() + value.len());
}

} // verus!
