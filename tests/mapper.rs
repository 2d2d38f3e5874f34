use iggy_core::error::IggyError;
use iggy_core::mapper::{
    map_clients, map_messages, map_offset, map_stream, map_streams, map_to_partition, map_to_stream,
    map_to_topic, map_topic, map_topics,
};
use iggy_core::models::{Message, Offset, Partition};
use iggy_core::response::encode_messages;

fn named(id: u32, count: u32, name: &str) -> Vec<u8> {
    let mut b = Vec::new();
    b.extend(id.to_le_bytes());
    b.extend(count.to_le_bytes());
    b.extend((name.len() as u32).to_le_bytes());
    b.extend(name.as_bytes());
    b
}

fn message(offset: u64, timestamp: u64, id: u128, payload: &[u8]) -> Vec<u8> {
    let mut b = Vec::new();
    b.extend(offset.to_le_bytes());
    b.extend(timestamp.to_le_bytes());
    b.extend(id.to_le_bytes());
    b.extend((payload.len() as u32).to_le_bytes());
    b.extend(payload);
    b
}

fn partition(id: u32, segments: u32, offset: u64, size: u64) -> Vec<u8> {
    let mut b = Vec::new();
    b.extend(id.to_le_bytes());
    b.extend(segments.to_le_bytes());
    b.extend(offset.to_le_bytes());
    b.extend(size.to_le_bytes());
    b
}

#[test]
fn offset_response_layout() {
    let bytes = vec![7, 0, 0, 0, 0x63, 0, 0, 0, 0, 0, 0, 0];
    assert_eq!(bytes.len(), 12);
    assert_eq!(map_offset(&bytes), Ok(Offset { consumer_id: 7, offset: 99 }));
    assert_eq!(map_offset(&bytes[..11]), Err(IggyError::MalformedFrame));
}

#[test]
fn clients_are_sorted_by_id() {
    let mut b = Vec::new();
    b.extend(5u32.to_le_bytes());
    b.push(2);
    b.extend(3u32.to_le_bytes());
    b.extend(b"a:1");
    b.extend(2u32.to_le_bytes());
    b.push(1);
    b.extend(0u32.to_le_bytes());
    b.extend(9u32.to_le_bytes());
    b.push(7);
    b.extend(1u32.to_le_bytes());
    b.extend(b"z");
    let clients = map_clients(&b).unwrap();
    assert_eq!(clients.len(), 3);
    assert_eq!((clients[0].id, clients[0].transport.as_str(), clients[0].address.as_str()), (2, "TCP", ""));
    assert_eq!((clients[1].id, clients[1].transport.as_str(), clients[1].address.as_str()), (5, "QUIC", "a:1"));
    assert_eq!((clients[2].id, clients[2].transport.as_str(), clients[2].address.as_str()), (9, "Unknown", "z"));
    assert_eq!(map_clients(&[]), Ok(vec![]));
}

#[test]
fn clients_with_bad_text_or_short_frame_fail() {
    let mut b = Vec::new();
    b.extend(1u32.to_le_bytes());
    b.push(1);
    b.extend(2u32.to_le_bytes());
    b.extend([0xff, 0xfe]);
    assert_eq!(map_clients(&b), Err(IggyError::InvalidUtf8));
    assert_eq!(map_clients(&b[..7]), Err(IggyError::MalformedFrame));
    assert_eq!(map_clients(&b[..10]), Err(IggyError::MalformedFrame));
}

#[test]
fn messages_are_decoded_and_sorted() {
    let mut b = 2u32.to_le_bytes().to_vec();
    b.extend(message(8, 100, 1, b"bb"));
    b.extend(message(7, 90, 2, b"a"));
    let messages = map_messages(&b).unwrap();
    assert_eq!(messages.len(), 2);
    assert_eq!(messages[0].offset, 7);
    assert_eq!(messages[0].payload, b"a".to_vec());
    assert_eq!(messages[0].length, 1);
    assert_eq!(messages[1].offset, 8);
    assert_eq!(messages[1].timestamp, 100);
    assert_eq!(messages[1].id, 1);
    assert_eq!(messages[1].payload, b"bb".to_vec());
    assert_eq!(map_messages(&[]), Ok(vec![]));
}

#[test]
fn truncated_message_tail_is_dropped() {
    let mut b = 2u32.to_le_bytes().to_vec();
    b.extend(message(1, 1, 1, b"abc"));
    let mut second = message(2, 2, 2, b"defg");
    second.truncate(second.len() - 2);
    b.extend(second);
    let messages = map_messages(&b).unwrap();
    assert_eq!(messages.len(), 1);
    assert_eq!(messages[0].offset, 1);
    assert_eq!(map_messages(&[1, 0, 0, 0, 5]), Err(IggyError::MalformedFrame));
}

#[test]
fn streams_and_topics() {
    let mut b = named(3, 1, "c");
    b.extend(named(1, 2, "a"));
    let streams = map_streams(&b).unwrap();
    assert_eq!(streams.iter().map(|s| s.id).collect::<Vec<_>>(), vec![1, 3]);
    assert_eq!(streams[0].name, "a");
    assert_eq!(streams[0].topics_count, 2);
    let topics = map_topics(&b).unwrap();
    assert_eq!(topics.iter().map(|t| t.id).collect::<Vec<_>>(), vec![1, 3]);
    assert_eq!(topics[1].partitions_count, 1);
    let (stream, read) = map_to_stream(&b, 0).unwrap();
    assert_eq!((stream.id, read), (3, 13));
    let (topic, read) = map_to_topic(&b, 13).unwrap();
    assert_eq!((topic.id, topic.name.as_str(), read), (1, "a", 13));
    assert_eq!(map_streams(&b[..5]), Err(IggyError::MalformedFrame));
}

#[test]
fn stream_details() {
    let mut b = named(1, 2, "s");
    b.extend(named(2, 1, "t2"));
    b.extend(named(1, 2, "t1"));
    let details = map_stream(&b).unwrap();
    assert_eq!((details.id, details.topics_count, details.name.as_str()), (1, 2, "s"));
    assert_eq!(details.topics.iter().map(|t| t.name.as_str()).collect::<Vec<_>>(), vec!["t1", "t2"]);
    assert_eq!(map_stream(&[]), Err(IggyError::MalformedFrame));
}

#[test]
fn topic_details() {
    let mut b = named(1, 9, "t");
    b.extend(partition(2, 1, 10, 100));
    b.extend(partition(1, 3, 20, 200));
    let details = map_topic(&b).unwrap();
    assert_eq!((details.id, details.name.as_str(), details.partitions_count), (1, "t", 2));
    assert_eq!(
        details.partitions,
        vec![
            Partition { id: 1, segments_count: 3, current_offset: 20, size_bytes: 200 },
            Partition { id: 2, segments_count: 1, current_offset: 10, size_bytes: 100 },
        ]
    );
    assert_eq!(map_topic(&b[..b.len() - 1]), Err(IggyError::MalformedFrame));
    let one = partition(4, 5, 6, 7);
    assert_eq!(
        map_to_partition(&one, 0),
        Ok((Partition { id: 4, segments_count: 5, current_offset: 6, size_bytes: 7 }, 24))
    );
}

#[test]
fn encoded_messages_decode_back() {
    let messages = vec![
        Message { offset: 1, timestamp: 10, id: 5, length: 1, payload: b"a".to_vec() },
        Message { offset: 2, timestamp: 11, id: 6, length: 0, payload: vec![] },
        Message { offset: 3, timestamp: 12, id: 7, length: 2, payload: b"bc".to_vec() },
    ];
    let bytes = encode_messages(&messages);
    assert_eq!(bytes.len(), 4 + 3 * 36 + 3);
    assert_eq!(&bytes[..4], &[3, 0, 0, 0]);
    assert_eq!(&bytes[4..12], &[1, 0, 0, 0, 0, 0, 0, 0]);
    assert_eq!(map_messages(&bytes), Ok(messages));
}

#[test]
fn final_message_with_empty_payload_is_kept() {
    let messages = vec![
        Message { offset: 1, timestamp: 10, id: 5, length: 1, payload: b"a".to_vec() },
        Message { offset: 2, timestamp: 11, id: 6, length: 0, payload: vec![] },
    ];
    let bytes = encode_messages(&messages);
    assert_eq!(bytes.len(), 77);
    let decoded = map_messages(&bytes).unwrap();
    assert_eq!(decoded, messages);
    assert_eq!(encode_messages(&decoded), bytes);
}
