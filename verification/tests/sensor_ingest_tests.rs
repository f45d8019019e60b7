use infra_core::sensor::error::FusionBufferError;
use infra_core::ingest::error::IngestError;
use infra_core::ingest::pipeline::{IngestBuffer, Pipeline};
use infra_core::sensor::buffer::MpmcRingBuffer;
use infra_core::sensor::sensor::SensorType;

#[test]
fn sensor_codes_round_trip() {
    for code in 0u8..5 {
        assert_eq!(SensorType::from_u8(code).unwrap().code(), code);
    }
    assert!(SensorType::from_u8(5).is_none());
    assert_eq!(SensorType::from_u8(2), Some(SensorType::IMU));
}

#[test]
fn frames_are_read_back_in_sequence() {
    let mut ring = MpmcRingBuffer::<u32, 8>::new();
    assert_eq!(ring.capacity(), 8);
    assert_eq!(ring.try_write(10).unwrap(), 1);
    assert_eq!(ring.try_write(20).unwrap(), 2);
    assert_eq!(ring.try_write(30).unwrap(), 3);
    let mut out = Vec::new();
    assert_eq!(ring.try_read_batch(&mut out, 2).unwrap(), 2);
    assert_eq!(out, vec![10, 20]);
    assert_eq!(ring.try_read_batch(&mut out, 10).unwrap(), 1);
    assert_eq!(out, vec![10, 20, 30]);
    assert_eq!(ring.try_read_batch(&mut out, 10).unwrap(), 0);
}

#[test]
fn ingest_buffer_refuses_past_its_limit() {
    let mut buf = IngestBuffer::new(10);
    assert!(buf.is_empty());
    assert_eq!(buf.extend(b"12345678").unwrap(), 8);
    assert_eq!(buf.available(), 2);
    assert!(matches!(buf.extend(b"abc"), Err(IngestError::BufferFull)));
    assert_eq!(buf.len(), 8);
    let drained = buf.drain();
    assert_eq!(&drained[..], b"12345678");
    assert!(buf.is_empty());
}

#[test]
fn pipeline_hands_on_full_blocks() {
    let mut p = Pipeline::new(16 * 1024);
    assert_eq!(p.ingest(&[1u8; 4000]).unwrap(), 4000);
    assert_eq!(p.stats(), (0, 4000));
    assert_eq!(p.ingest(&[2u8; 200]).unwrap(), 200);
    assert_eq!(p.stats(), (1, 4200));
    let mut small = Pipeline::new(10);
    assert!(matches!(small.ingest(&[0u8; 11]), Err(IngestError::BufferFull)));
    assert_eq!(small.stats(), (0, 0));
}

#[test]
fn ingest_and_queue_error_messages() {
    assert_eq!(IngestError::BindFailed("port 1".to_string()).message(), "Bind failed: port 1");
    assert_eq!(IngestError::BufferFull.message(), "Ingest buffer full");
    assert_eq!(IngestError::Shutdown.message(), "Server shutdown");
    assert_eq!(
        IngestError::Io(std::io::Error::new(std::io::ErrorKind::Other, "reset")).message(),
        "I/O error: reset"
    );
    assert_eq!(
        FusionBufferError::OverwriteDetected { dropped: 3, total: 40 }.message(),
        "Overwrite: 3/40 frames dropped"
    );
    assert_eq!(FusionBufferError::SlotContention(17).message(), "CAS contention on slot claim at sequence 17");
    assert_eq!(
        FusionBufferError::BufferFull.message(),
        "Ring buffer full — all slots occupied by unread data"
    );
    assert_eq!(FusionBufferError::AffinityFailed("x".to_string()).message(), "CPU affinity failed: x");
}

#[test]
fn a_full_ring_refuses_writes_and_loses_nothing() {
    let mut ring = MpmcRingBuffer::<u32, 2>::new();
    assert_eq!(ring.try_write(1).unwrap(), 1);
    assert_eq!(ring.try_write(2).unwrap(), 2);
    assert!(matches!(ring.try_write(3), Err(FusionBufferError::BufferFull)));
    let mut out = Vec::new();
    assert_eq!(ring.try_read_batch(&mut out, 3).unwrap(), 2);
    assert_eq!(out, vec![1, 2]);
    assert_eq!(ring.try_write(3).unwrap(), 3);
    assert_eq!(ring.try_read_batch(&mut out, 3).unwrap(), 1);
    assert_eq!(out, vec![1, 2, 3]);
}

#[test]
fn test_tsan_3_producers_1_consumer_no_data_races() {
    const FRAMES_PER_PRODUCER: usize = 10_000;
    let mut ring = MpmcRingBuffer::<(u32, u64), 1024>::new();
    let mut next = [0u64; 3];
    let mut total = 0usize;
    let mut seen: Vec<Vec<u64>> = vec![Vec::new(), Vec::new(), Vec::new()];
    let mut batch = Vec::with_capacity(64);
    while total < FRAMES_PER_PRODUCER * 3 {
        for pid in 0..3u32 {
            for _ in 0..100 {
                let seq = next[pid as usize];
                if seq as usize >= FRAMES_PER_PRODUCER {
                    break;
                }
                match ring.try_write((pid, seq)) {
                    Ok(_) => next[pid as usize] += 1,
                    Err(_) => break,
                }
            }
        }
        batch.clear();
        let count = ring.try_read_batch(&mut batch, 64).unwrap_or(0);
        total += count;
        for (pid, seq) in batch.iter() {
            seen[*pid as usize].push(*seq);
        }
    }
    assert!(total >= FRAMES_PER_PRODUCER * 3);
    for s in &seen {
        assert_eq!(*s, (0..FRAMES_PER_PRODUCER as u64).collect::<Vec<u64>>());
    }
}
