use infra_core::broker::buffer::{RingBuffer, RING_CAPACITY};
use infra_core::broker::cli::{get_arg, require_arg};
use infra_core::broker::client::{
    parse_commit_response, parse_fetch_response, parse_list_offsets_response,
    parse_produce_response,
};
use infra_core::broker::cursor::{cursor_json, cursor_json_in_bounds, parse_cursor_json, CursorState, CursorTable};
use infra_core::broker::error::BrokerError;
use infra_core::broker::protocol::{
    Frame, FrameDecoder, API_FETCH, API_LIST_OFFSETS, ERROR_NONE, ERROR_OFFSET_OUT_OF_RANGE,
};
use infra_core::broker::request::{decode_request, list_offsets_reply, FetchBatch, FetchOutcome, Request};
use infra_core::broker::segment::{
    check_record, compute_crc32c, encode_record, parse_record_header, scan_records, SegmentConfig,
};
use infra_core::broker::topic::{hash_topic_name, segment_append, select_segment, SegmentMeta};

#[test]
fn topic_ids_are_fnv1a_of_the_name() {
    assert_eq!(hash_topic_name(""), 0x811C9DC5);
    assert_eq!(hash_topic_name("a"), 0xE40C292C);
    assert_eq!(hash_topic_name("orders"), 0x325E96EC);
}

#[test]
fn crc_of_known_input() {
    assert_eq!(compute_crc32c(b"1234", b"5678", b"9", 9), 0xF28417BE);
    assert_eq!(compute_crc32c(b"1234", b"5678", b"9", 0), 0);
}

#[test]
fn record_layout_and_scan() {
    let rec = encode_record(7, b"k", b"vv");
    let expected: Vec<u8> = vec![
        0xe7, 0xdc, 0xc9, 0xc8, 0, 0, 0, 0, 0, 0, 0, 7, 0, 0, 0, 1, 0, 0, 0, 2, b'k', b'v', b'v',
    ];
    assert_eq!(rec, expected);
    let mut bytes = rec.clone();
    bytes.extend_from_slice(&encode_record(8, b"key", b""));
    let scanned = scan_records(&bytes);
    assert_eq!(scanned.len(), 2);
    assert_eq!(scanned[0].0.offset, 7);
    assert_eq!(scanned[1].0.offset, 8);
    assert_eq!(scanned[1].1, 23);
}

#[test]
fn scan_skips_corrupt_records_and_stops_at_a_torn_tail() {
    let mut bytes = encode_record(1, b"a", b"1");
    bytes[20] ^= 0xff;
    bytes.extend_from_slice(&encode_record(2, b"b", b"2"));
    bytes.extend_from_slice(&encode_record(3, b"c", b"3")[..10]);
    let scanned = scan_records(&bytes);
    assert_eq!(scanned.len(), 1);
    assert_eq!(scanned[0].0.offset, 2);
}

#[test]
fn check_record_detects_corruption() {
    let rec = encode_record(0, b"key", b"value");
    let ok = check_record(&rec[..20], b"key".to_vec(), b"value".to_vec()).unwrap();
    assert_eq!(ok.0.offset, 0);
    assert_eq!(ok.0.key_len, 3);
    assert_eq!(ok.0.value_len, 5);
    let mut bad = rec.clone();
    bad[0] ^= 0xff;
    match check_record(&bad[..20], b"key".to_vec(), b"value".to_vec()) {
        Err(BrokerError::CorruptData(m)) => assert!(m.starts_with("CRC mismatch at offset 0: stored=")),
        other => panic!("{:?}", other),
    }
}

#[test]
fn segment_accounting_seals_at_the_limit() {
    let mut meta = SegmentMeta { base_offset: 0, size: 0, message_count: 0, sealed: false };
    assert_eq!(segment_append(&mut meta, 50, 30).unwrap(), 0);
    assert!(!meta.sealed);
    assert_eq!(segment_append(&mut meta, 50, 30).unwrap(), 30);
    assert!(meta.sealed);
    assert_eq!(meta.message_count, 2);
    match segment_append(&mut meta, 50, 30) {
        Err(BrokerError::InvalidArgument(m)) => assert_eq!(m, "segment is sealed"),
        other => panic!("{:?}", other),
    }
}

#[test]
fn select_segment_finds_the_holder() {
    let segs = vec![
        SegmentMeta { base_offset: 0, size: 60, message_count: 2, sealed: true },
        SegmentMeta { base_offset: 2, size: 30, message_count: 1, sealed: false },
    ];
    assert_eq!(select_segment(&segs, 1, 1), 0);
    assert_eq!(select_segment(&segs, 1, 2), 1);
    assert_eq!(select_segment(&segs, 1, 9), 1);
}

#[test]
fn requests_decode_from_frames() {
    match decode_request(&Frame::produce(1, "t", b"k", b"v")).unwrap() {
        Request::Produce { topic, key, value } => {
            assert_eq!(topic, "t");
            assert_eq!(key, b"k".to_vec());
            assert_eq!(value, b"v".to_vec());
        }
        other => panic!("{:?}", other),
    }
    match decode_request(&Frame::fetch(2, "t", 5, 100)).unwrap() {
        Request::Fetch { topic, start_offset, max_bytes } => {
            assert_eq!((topic.as_str(), start_offset, max_bytes), ("t", 5, 100));
        }
        other => panic!("{:?}", other),
    }
    let short = Frame { api_key: 0, api_version: 1, correlation_id: 3, body: vec![0] };
    match decode_request(&short) {
        Err(BrokerError::InvalidFrame(m)) => assert_eq!(m, "produce body too short"),
        other => panic!("{:?}", other),
    }
    let unknown = Frame { api_key: 9, api_version: 1, correlation_id: 3, body: vec![] };
    match decode_request(&unknown) {
        Err(BrokerError::InvalidFrame(m)) => assert_eq!(m, "unknown api_key: 9"),
        other => panic!("{:?}", other),
    }
}

#[test]
fn fetch_batches_end_on_out_of_range() {
    let mut batch = FetchBatch::new(7, 0);
    assert_eq!(batch.next_offset(), Some(0));
    assert!(batch.record(FetchOutcome::Message { offset: 0, key: b"k".to_vec(), value: b"v".to_vec() }).is_none());
    assert_eq!(batch.next_offset(), Some(1));
    let reply = batch.record(FetchOutcome::OutOfRange).unwrap();
    assert_eq!(reply.api_key, API_FETCH);
    let msgs = parse_fetch_response(&reply.body).unwrap();
    assert_eq!(msgs, vec![(0u64, b"k".to_vec(), b"v".to_vec())]);

    let mut empty = FetchBatch::new(8, 3);
    let none = empty.record(FetchOutcome::OutOfRange).unwrap();
    assert_eq!(&none.body[..4], &ERROR_OFFSET_OUT_OF_RANGE.to_be_bytes());
}

#[test]
fn list_offsets_replies_and_client_parsers() {
    let reply = list_offsets_reply(4, Some((Some(2), 9)));
    assert_eq!(reply.api_key, API_LIST_OFFSETS);
    assert_eq!(parse_list_offsets_response(&reply.body).unwrap(), (2, 9));
    let unknown = list_offsets_reply(4, None);
    assert_eq!(parse_list_offsets_response(&unknown.body).unwrap(), (0, 0));

    let produced = Frame::produce_response(1, ERROR_NONE, 42);
    assert_eq!(parse_produce_response(&produced.body).unwrap(), 42);
    let failed = Frame::produce_response(1, 4, 0);
    match parse_produce_response(&failed.body) {
        Err(BrokerError::InvalidFrame(m)) => assert_eq!(m, "produce error: code=4"),
        other => panic!("{:?}", other),
    }
    assert!(parse_commit_response(&Frame::commit_response(1, ERROR_NONE).body).is_ok());
    match parse_commit_response(&[0u8; 2]) {
        Err(BrokerError::InvalidFrame(m)) => assert_eq!(m, "commit response too short"),
        other => panic!("{:?}", other),
    }
}

#[test]
fn decoder_keeps_partial_frames() {
    let bytes = Frame::commit(5, "t", 1).encode().unwrap();
    let mut decoder = FrameDecoder::new();
    assert!(decoder.feed_bytes(&bytes[..10]).unwrap().is_empty());
    let frames = decoder.feed_bytes(&bytes[10..]).unwrap();
    assert_eq!(frames.len(), 1);
    assert_eq!(frames[0].correlation_id, 5);
}

#[test]
fn command_line_flags() {
    let args: Vec<String> = ["broker", "start", "--data-dir", "/tmp/x", "--bind"].iter().map(|s| s.to_string()).collect();
    assert_eq!(get_arg(&args, "--data-dir"), Some("/tmp/x".to_string()));
    assert_eq!(get_arg(&args, "--bind"), None);
    match require_arg(&args, "--topic") {
        Err(BrokerError::InvalidArgument(m)) => assert_eq!(m, "missing required flag: --topic"),
        other => panic!("{:?}", other),
    }
}

#[test]
fn error_messages_read_like_the_display_texts() {
    assert_eq!(BrokerError::TopicNotFound(7).message(), "Topic not found: id=7");
    assert_eq!(
        BrokerError::OffsetOutOfRange { requested: 5, earliest: 0, latest: 3 }.message(),
        "Offset out of range: requested=5, earliest=0, latest=3"
    );
    assert_eq!(BrokerError::BufferFull.message(), "Ring buffer full");
}

#[test]
fn cursor_table_tracks_offsets() {
    let mut table = CursorTable::new();
    let fresh = table.get_or_create("c1", "orders");
    assert_eq!((fresh.committed_offset, fresh.fetch_offset), (0, 0));
    table.update_fetch_offset("c1", 10).unwrap();
    let committed = table.commit_offset("c1", 8).unwrap();
    assert_eq!((committed.committed_offset, committed.fetch_offset), (8, 10));
    let again = table.get_or_create("c1", "other");
    assert_eq!(again.topic_name, "orders");
    match table.update_fetch_offset("nobody", 1) {
        Err(BrokerError::NotFound(m)) => assert_eq!(m, "cursor not found: nobody"),
        other => panic!("{:?}", other),
    }
    assert_eq!(table.client_ids(), vec!["c1".to_string()]);
}

#[test]
fn saved_cursor_lines_and_how_they_read_back() {
    let state = CursorState {
        client_id: "c1".to_string(),
        topic_name: "orders".to_string(),
        committed_offset: 123,
        fetch_offset: 456,
        last_activity_secs: 789,
    };
    let json = cursor_json(&state);
    assert_eq!(
        json,
        r#"{"client_id":"c1","topic_name":"orders","committed_offset":123,"fetch_offset":456,"last_activity_secs":789}"#
    );
    assert!(cursor_json_in_bounds(&json));
    // Reading starts one character past the `":"` or `":` after each key.
    let read = parse_cursor_json(&json).unwrap();
    assert_eq!(read.client_id, "1");
    assert_eq!(read.topic_name, "rders");
    assert_eq!((read.committed_offset, read.fetch_offset, read.last_activity_secs), (23, 56, 89));

    let small = CursorState { committed_offset: 5, ..state };
    assert!(parse_cursor_json(&cursor_json(&small)).is_none());
    assert!(parse_cursor_json("{}").is_none());
    assert!(!cursor_json_in_bounds(r#"{"client_id""#));
}

#[test]
fn draining_hands_out_runs_in_order() {
    let mut rb = RingBuffer::new();
    let mut seen: Vec<u8> = Vec::new();
    assert!(matches!(rb.drain_into(|s: &[u8]| { seen.extend_from_slice(s); Ok(s.len()) }), Ok(0)));
    assert!(seen.is_empty());
    let fill = vec![1u8; RING_CAPACITY - 3];
    rb.try_write(&fill).unwrap();
    let mut sink = vec![0u8; RING_CAPACITY - 3];
    rb.try_read(&mut sink).unwrap();
    rb.try_write(b"abcdef").unwrap();
    let mut runs: Vec<Vec<u8>> = Vec::new();
    let taken = rb.drain_into(|s: &[u8]| { runs.push(s.to_vec()); Ok(s.len()) }).unwrap();
    assert_eq!(taken, 6);
    assert_eq!(runs, vec![b"abc".to_vec(), b"def".to_vec()]);
    assert_eq!(rb.available_read(), 0);
}

#[test]
fn draining_stops_at_a_partial_take_and_keeps_the_rest() {
    let mut rb = RingBuffer::new();
    rb.try_write(b"hello world").unwrap();
    let taken = rb.drain_into(|s: &[u8]| Ok(s.len().min(5))).unwrap();
    assert_eq!(taken, 5);
    let mut dest = vec![0u8; 6];
    assert!(matches!(rb.try_read(&mut dest), Ok(6)));
    assert_eq!(&dest, b" world");
    rb.try_write(b"xyz").unwrap();
    assert!(matches!(rb.drain_into(|_s: &[u8]| Err(BrokerError::BufferFull)), Err(BrokerError::BufferFull)));
    assert_eq!(rb.available_read(), 3);
}

/// Appends a record to segment bytes the way a segment file does, returning its position.
fn append_record(bytes: &mut Vec<u8>, meta: &mut SegmentMeta, offset: u64, key: &[u8], value: &[u8]) -> u64 {
    let rec = encode_record(offset, key, value);
    let pos = segment_append(meta, SegmentConfig::default().max_size, rec.len() as u64).unwrap();
    bytes.extend_from_slice(&rec);
    pos
}

/// Reads the record at `pos` back the way a segment file does.
fn read_at(bytes: &[u8], pos: usize) -> Result<(u64, Vec<u8>, Vec<u8>), BrokerError> {
    let (_, hdr) = parse_record_header(&bytes[pos..pos + 20]);
    let k = pos + 20;
    let v = k + hdr.key_len as usize;
    let end = v + hdr.value_len as usize;
    let (h, key, value) = check_record(&bytes[pos..pos + 20], bytes[k..v].to_vec(), bytes[v..end].to_vec())?;
    Ok((h.offset, key, value))
}

#[test]
fn test_append_and_read() {
    let mut meta = SegmentMeta { base_offset: 0, size: 0, message_count: 0, sealed: false };
    let mut bytes = Vec::new();
    append_record(&mut bytes, &mut meta, 0, b"key1", b"value1");
    append_record(&mut bytes, &mut meta, 1, b"key2", b"longer-value-data");
    assert_eq!(meta.message_count, 2);
    let (offset, key, value) = read_at(&bytes, 0).unwrap();
    assert_eq!(offset, 0);
    assert_eq!(key, b"key1");
    assert_eq!(value, b"value1");
    let first_msg_size = 20 + 4 + 6;
    let (offset2, key2, value2) = read_at(&bytes, first_msg_size).unwrap();
    assert_eq!(offset2, 1);
    assert_eq!(key2, b"key2");
    assert_eq!(value2, b"longer-value-data");
}

#[test]
fn test_scan_rebuild() {
    let mut meta = SegmentMeta { base_offset: 0, size: 0, message_count: 0, sealed: false };
    let mut bytes = Vec::new();
    append_record(&mut bytes, &mut meta, 10, b"a", b"1");
    append_record(&mut bytes, &mut meta, 11, b"b", b"22");
    append_record(&mut bytes, &mut meta, 12, b"ccc", b"333");
    let entries = scan_records(&bytes);
    assert_eq!(entries.len(), 3);
    assert_eq!(entries[0].0.offset, 10);
    assert_eq!(entries[1].0.offset, 11);
    assert_eq!(entries[2].0.offset, 12);
}

#[test]
fn test_crc_detects_corruption() {
    let mut meta = SegmentMeta { base_offset: 0, size: 0, message_count: 0, sealed: false };
    let mut bytes = Vec::new();
    append_record(&mut bytes, &mut meta, 0, b"key", b"value");
    bytes[0] ^= 0xFF;
    let result = read_at(&bytes, 0);
    assert!(result.is_err());
}

#[test]
fn topic_names_must_be_utf8() {
    let mut frame = Frame::list_offsets(1, "x");
    frame.body = vec![0, 2, 0xc3, 0x28];
    match decode_request(&frame) {
        Err(BrokerError::InvalidFrame(m)) => {
            assert_eq!(m, "invalid topic name: invalid utf-8 sequence of 1 bytes from index 0")
        }
        other => panic!("{:?}", other),
    }
    frame.body = vec![0, 2, b'o', b'k'];
    match decode_request(&frame) {
        Ok(Request::ListOffsets { topic }) => assert_eq!(topic, "ok"),
        other => panic!("{:?}", other),
    }
}

#[test]
fn io_errors_and_crc_mismatches_read_in_full() {
    let e = BrokerError::Io(std::io::Error::new(std::io::ErrorKind::Other, "disk gone"));
    assert_eq!(e.message(), "I/O error: disk gone");
    let rec = encode_record(42, b"key", b"value");
    let crc = u32::from_be_bytes([rec[0], rec[1], rec[2], rec[3]]);
    let mut bad = rec.clone();
    bad[0] ^= 0xff;
    let stored = crc ^ 0xff00_0000;
    match check_record(&bad[..20], b"key".to_vec(), b"value".to_vec()) {
        Err(BrokerError::CorruptData(m)) => assert_eq!(
            m,
            format!("CRC mismatch at offset 42: stored={:08x} computed={:08x}", stored, crc)
        ),
        other => panic!("{:?}", other),
    }
}

#[test]
fn frames_fed_in_small_chunks_come_out_in_order() {
    let frames = vec![
        Frame::list_offsets(1, "a"),
        Frame::list_offsets(2, "bb"),
        Frame::produce_response(3, ERROR_NONE, 9),
    ];
    let mut bytes = Vec::new();
    for f in &frames {
        bytes.extend_from_slice(&f.encode().unwrap());
    }
    let mut decoder = FrameDecoder::new();
    let mut out = Vec::new();
    for chunk in bytes.chunks(7) {
        out.extend(decoder.feed_bytes(chunk).unwrap());
    }
    assert_eq!(out.len(), 3);
    for (a, b) in out.iter().zip(frames.iter()) {
        assert_eq!(a.api_key, b.api_key);
        assert_eq!(a.correlation_id, b.correlation_id);
        assert_eq!(a.body, b.body);
    }
}
