use iggy_core::mapper::map_messages;
use iggy_core::partition::{NewMessage, PartitionError, PartitionLog, PollingStrategy};
use iggy_core::response::recover_current_offset;
use iggy_core::samplers::{BinarySchema, RetainedMessageBatchSampler};

fn new_message(payload: &[u8]) -> NewMessage {
    NewMessage { timestamp: 1, id: 0, payload: payload.to_vec() }
}

fn offsets(messages: &[iggy_core::models::Message]) -> Vec<u64> {
    messages.iter().map(|m| m.offset).collect()
}

#[test]
fn append_then_poll_by_offset() {
    let mut partition = PartitionLog::new(1_000_000);
    let batch = vec![new_message(b"a"), new_message(b"b"), new_message(b"c")];
    assert_eq!(partition.append(&batch), Ok((1, 3)));
    let polled = partition.poll(PollingStrategy::Offset(1), 10);
    assert_eq!(offsets(&polled), vec![1, 2, 3]);
    let payloads: Vec<Vec<u8>> = polled.iter().map(|m| m.payload.clone()).collect();
    assert_eq!(payloads, vec![b"a".to_vec(), b"b".to_vec(), b"c".to_vec()]);
    assert_eq!(partition.current_offset(), 3);
}

#[test]
fn small_segments_roll_over() {
    let mut partition = PartitionLog::new(128);
    let mut appended = 0u64;
    while partition.segments_count() < 2 {
        let (first, last) = partition.append(&vec![new_message(b"0123456789")]).unwrap();
        assert_eq!(first, appended + 1);
        assert_eq!(last, appended + 1);
        appended += 1;
    }
    assert_eq!(appended, 3);
    let all = partition.poll(PollingStrategy::First, 1000);
    assert_eq!(offsets(&all), (1..=appended).collect::<Vec<_>>());
    let last = partition.poll(PollingStrategy::Last, 1);
    assert_eq!(offsets(&last), vec![appended]);
    assert_eq!(partition.segments[1].start_offset, 3);
    assert!(partition.segments[0].is_closed);
}

#[test]
fn rollover_when_active_segment_is_nearly_full() {
    let mut partition = PartitionLog::new(100);
    assert_eq!(partition.append(&vec![new_message(&[0u8; 63])]), Ok((1, 1)));
    assert_eq!(partition.segments[0].size_bytes, 99);
    assert_eq!(partition.append(&vec![new_message(b"")]), Ok((2, 2)));
    assert_eq!(partition.segments_count(), 2);
    assert_eq!(partition.segments[1].start_offset, 2);
}

#[test]
fn next_poll_stores_offset() {
    let mut partition = PartitionLog::new(1_000_000);
    let batch: Vec<NewMessage> = (0..10).map(|i| new_message(&[i as u8])).collect();
    partition.append(&batch).unwrap();
    assert_eq!(partition.store_consumer_offset(42, 5), Ok(()));
    let polled = partition.poll(PollingStrategy::Next(42), 3);
    assert_eq!(offsets(&polled), vec![6, 7, 8]);
    assert_eq!(partition.get_consumer_offset(42), Some(8));
    let polled = partition.poll(PollingStrategy::Next(42), 3);
    assert_eq!(offsets(&polled), vec![9, 10]);
    assert_eq!(partition.get_consumer_offset(42), Some(10));
    assert!(partition.poll(PollingStrategy::Next(42), 3).is_empty());
    assert_eq!(offsets(&partition.poll(PollingStrategy::Next(7), 2)), vec![1, 2]);
}

#[test]
fn consumer_offset_past_end_is_refused() {
    let mut partition = PartitionLog::new(1_000_000);
    partition.append(&vec![new_message(b"x")]).unwrap();
    assert_eq!(partition.store_consumer_offset(1, 2), Err(PartitionError::InvalidOffset));
    assert_eq!(partition.get_consumer_offset(1), None);
    assert_eq!(partition.store_consumer_offset(1, 1), Ok(()));
    assert_eq!(partition.store_consumer_offset(1, 0), Ok(()));
    assert_eq!(partition.get_consumer_offset(1), Some(0));
}

#[test]
fn poll_past_end_is_empty() {
    let mut partition = PartitionLog::new(1_000_000);
    partition.append(&vec![new_message(b"x"), new_message(b"y")]).unwrap();
    assert!(partition.poll(PollingStrategy::Offset(3), 10).is_empty());
    assert_eq!(offsets(&partition.poll(PollingStrategy::Offset(2), 10)), vec![2]);
    assert_eq!(offsets(&partition.poll(PollingStrategy::Offset(0), 1)), vec![1]);
}

#[test]
fn append_errors() {
    let mut partition = PartitionLog::new(100);
    assert_eq!(partition.append(&vec![]), Err(PartitionError::InvalidMessagesCount));
    assert_eq!(partition.append(&vec![new_message(&[0u8; 65])]), Err(PartitionError::SegmentFull));
    assert_eq!(partition.current_offset(), 0);
}

#[test]
fn restart_recovers_newest_offset() {
    let mut partition = PartitionLog::new(1_000_000);
    for i in 0..100u32 {
        let (first, last) = partition.append(&vec![new_message(&[i as u8, 1])]).unwrap();
        assert_eq!((first, last), (i as u64 + 1, i as u64 + 1));
    }
    let log = partition.log_bytes();
    assert_eq!(recover_current_offset(&log), Ok(100));
    let restored = map_messages(&log).unwrap();
    assert_eq!(restored.len(), 100);
    assert_eq!(restored.last().unwrap().offset, 100);
    assert_eq!(restored.last().unwrap().payload, vec![99u8, 1]);

    let mut torn = log.clone();
    torn.extend(101u64.to_le_bytes());
    torn.extend(0u64.to_le_bytes());
    torn.extend(0u128.to_le_bytes());
    torn.extend(10u32.to_le_bytes());
    torn.extend([1, 2, 3, 4]);
    assert_eq!(recover_current_offset(&torn), Ok(100));
    assert_eq!(recover_current_offset(&[]), Ok(0));
}

#[test]
fn poll_by_timestamp() {
    let mut partition = PartitionLog::new(1_000_000);
    let batch: Vec<NewMessage> = [10u64, 20, 15, 30]
        .iter()
        .map(|t| NewMessage { timestamp: *t, id: 0, payload: vec![1] })
        .collect();
    partition.append(&batch).unwrap();
    assert_eq!(offsets(&partition.poll(PollingStrategy::Timestamp(15), 10)), vec![2, 3, 4]);
    assert_eq!(offsets(&partition.poll(PollingStrategy::Timestamp(25), 1)), vec![4]);
    assert!(partition.poll(PollingStrategy::Timestamp(31), 10).is_empty());
    assert_eq!(offsets(&partition.poll(PollingStrategy::Timestamp(0), 2)), vec![1, 2]);
}

#[test]
fn recovery_keeps_an_empty_newest_message() {
    let mut partition = PartitionLog::new(128);
    partition.append(&vec![new_message(&[7u8; 60])]).unwrap();
    partition.append(&vec![new_message(b"")]).unwrap();
    assert_eq!(partition.segments_count(), 2);
    let all = partition.poll(PollingStrategy::First, 1000);
    assert_eq!(offsets(&all), vec![1, 2]);
    let log = partition.log_bytes();
    assert_eq!(recover_current_offset(&log), Ok(2));
    assert_eq!(offsets(&map_messages(&log).unwrap()), vec![1, 2]);
}

#[test]
fn segment_sizes_follow_appends() {
    let mut partition = PartitionLog::new(100);
    partition.append(&vec![new_message(&[0u8; 10])]).unwrap();
    assert_eq!(partition.segments[0].size_bytes, 46);
    partition.append(&vec![new_message(&[0u8; 20])]).unwrap();
    assert_eq!(partition.segments[0].size_bytes, 46);
    assert_eq!(partition.segments[1].size_bytes, 56);
    assert_eq!(partition.segments[1].end_offset, 3);
    let mut tiny = PartitionLog::new(0);
    assert_eq!(tiny.append(&vec![new_message(b"")]), Err(PartitionError::SegmentFull));
}

#[test]
fn rolled_over_segment_log_passes_sampling() {
    let mut partition = PartitionLog::new(100);
    partition.append(&vec![new_message(&[1u8; 40])]).unwrap();
    partition.append(&vec![new_message(&[2u8; 5]), new_message(&[3u8; 5])]).unwrap();
    assert_eq!(partition.segments_count(), 2);
    let start = partition.segments[1].start_offset;
    assert_eq!(start, 2);
    let bytes = partition.segment_log_bytes(1);
    assert_eq!(bytes.len(), 2 * 41);
    let sampler = RetainedMessageBatchSampler::new(start, "2.log".to_string(), "2.index".to_string());
    assert_eq!(
        sampler.check_sample(bytes.len() as u64, &bytes),
        Ok(BinarySchema::RetainedMessageBatchSchema)
    );
}
