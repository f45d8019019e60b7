use infra_core::broker::buffer::{RingBuffer, RING_CAPACITY};
use infra_core::broker::index::SegmentIndex;
use infra_core::broker::protocol::{Frame, FrameDecoder, API_FETCH, API_PRODUCE, ERROR_NONE};

#[test]
fn test_write_read_roundtrip() {
    let mut rb = RingBuffer::new();
    let data = b"hello world";

    let written = rb.try_write(data).unwrap();
    assert_eq!(written, 11);

    let mut dest = vec![0u8; 20];
    let read = rb.try_read(&mut dest).unwrap();
    assert_eq!(read, 11);
    assert_eq!(&dest[..11], data);
}

#[test]
fn test_empty_read_returns_zero() {
    let mut rb = RingBuffer::new();
    let mut dest = vec![0u8; 10];
    let read = rb.try_read(&mut dest).unwrap();
    assert_eq!(read, 0);
}

#[test]
fn test_write_exceeding_capacity_fails() {
    let mut rb = RingBuffer::new();
    let data = vec![0u8; RING_CAPACITY + 1];
    let result = rb.try_write(&data);
    assert!(result.is_err());
}

#[test]
fn test_wraparound() {
    let mut rb = RingBuffer::new();
    let cap = rb.capacity();

    let fill = vec![0xAAu8; cap / 2];
    rb.try_write(&fill).unwrap();

    let mut drain = vec![0u8; cap / 2];
    rb.try_read(&mut drain).unwrap();

    let data = b"wrap test data";
    rb.try_write(data).unwrap();

    let mut dest = vec![0u8; data.len()];
    let read = rb.try_read(&mut dest).unwrap();
    assert_eq!(read, data.len());
    assert_eq!(&dest, data);
}

#[test]
fn test_index_add_and_find() {
    let mut idx = SegmentIndex::new(0);

    idx.add(0, 0, 3, 5);
    idx.add(1, 28, 3, 5);
    idx.add(2, 56, 4, 6);

    assert_eq!(idx.find_position(0).unwrap(), 0);
    assert_eq!(idx.find_position(1).unwrap(), 28);
    assert_eq!(idx.find_position(2).unwrap(), 56);
    assert_eq!(idx.next_offset(), 3);
}

#[test]
fn test_offset_out_of_range() {
    let mut idx = SegmentIndex::new(100);
    idx.add(100, 0, 1, 1);

    let result = idx.find_position(50);
    assert!(result.is_err());
}

#[test]
fn test_scan_from() {
    let mut idx = SegmentIndex::new(0);
    idx.add(0, 0, 1, 1);
    idx.add(1, 22, 1, 1);
    idx.add(2, 44, 1, 1);
    idx.add(3, 66, 1, 1);

    let from_1: Vec<u64> = idx.scan_from(1).iter().map(|e| e.offset).collect();
    assert_eq!(from_1, vec![1, 2, 3]);
}

#[test]
fn test_produce_frame_roundtrip() {
    let frame = Frame::produce(42, "test-topic", b"key-1", b"value-1");
    let encoded = frame.encode().unwrap();

    let mut decoder = FrameDecoder::new();
    let decoded = decoder.feed_bytes(&encoded).unwrap();

    assert_eq!(decoded.len(), 1);
    assert_eq!(decoded[0].api_key, API_PRODUCE);
    assert_eq!(decoded[0].correlation_id, 42);
}

#[test]
fn test_fetch_response_roundtrip() {
    let messages = vec![
        (0u64, b"k1".to_vec(), b"v1".to_vec()),
        (1u64, b"k2".to_vec(), b"v2".to_vec()),
    ];
    let frame = Frame::fetch_response(100, ERROR_NONE, &messages);
    let encoded = frame.encode().unwrap();

    let mut decoder = FrameDecoder::new();
    let decoded = decoder.feed_bytes(&encoded).unwrap();

    assert_eq!(decoded.len(), 1);
    assert_eq!(decoded[0].api_key, API_FETCH);
}

#[test]
fn test_invalid_magic_rejected() {
    let mut decoder = FrameDecoder::new();
    let garbage = vec![0xFFu8; 16];
    let result = decoder.feed_bytes(&garbage);
    assert!(result.is_err());
}
