use iggy_core::delete_partitions::{default_partitions_count, DeletePartitions};
use iggy_core::error::IggyError;

#[test]
fn should_be_serialized_as_bytes() {
    let command = DeletePartitions {
        stream_id: 1,
        topic_id: 2,
        partitions_count: 3,
    };

    let bytes = command.as_bytes();
    let stream_id = u32::from_le_bytes(bytes[..4].try_into().unwrap());
    let topic_id = u32::from_le_bytes(bytes[4..8].try_into().unwrap());
    let partitions_count = u32::from_le_bytes(bytes[8..12].try_into().unwrap());

    assert!(!bytes.is_empty());
    assert_eq!(stream_id, command.stream_id);
    assert_eq!(topic_id, command.topic_id);
    assert_eq!(partitions_count, command.partitions_count);
}

#[test]
fn should_be_deserialized_from_bytes() {
    let stream_id = 1u32;
    let topic_id = 2u32;
    let partitions_count = 3u32;
    let bytes = [
        stream_id.to_le_bytes(),
        topic_id.to_le_bytes(),
        partitions_count.to_le_bytes(),
    ]
    .concat();
    let command = DeletePartitions::from_bytes(&bytes);
    assert!(command.is_ok());

    let command = command.unwrap();
    assert_eq!(command.stream_id, stream_id);
    assert_eq!(command.topic_id, topic_id);
    assert_eq!(command.partitions_count, partitions_count);
}

#[test]
fn should_be_read_from_string() {
    let stream_id = 1u32;
    let topic_id = 2u32;
    let partitions_count = 3u32;
    let input = format!("{}|{}|{}", stream_id, topic_id, partitions_count);
    let command = DeletePartitions::from_str(&input);
    assert!(command.is_ok());

    let command = command.unwrap();
    assert_eq!(command.stream_id, stream_id);
    assert_eq!(command.topic_id, topic_id);
    assert_eq!(command.partitions_count, partitions_count);
}

#[test]
fn bytes_layout_is_little_endian() {
    let command = DeletePartitions { stream_id: 1, topic_id: 2, partitions_count: 3 };
    assert_eq!(command.as_bytes(), vec![1, 0, 0, 0, 2, 0, 0, 0, 3, 0, 0, 0]);
    assert_eq!(DeletePartitions::from_bytes(&command.as_bytes()), Ok(command));
}

#[test]
fn text_form_and_round_trip() {
    let command = DeletePartitions { stream_id: 1, topic_id: 2, partitions_count: 3 };
    assert_eq!(command.to_string(), "1|2|3");
    let big = DeletePartitions { stream_id: 4294967295, topic_id: 10, partitions_count: 0 };
    assert_eq!(big.to_string(), "4294967295|10|0");
    assert_eq!(DeletePartitions::from_str(&big.to_string()), Ok(big));
}

#[test]
fn zero_stream_or_topic_is_rejected() {
    let zero_stream = DeletePartitions { stream_id: 0, topic_id: 2, partitions_count: 3 };
    assert_eq!(zero_stream.validate(), Err(IggyError::InvalidStreamId));
    assert_eq!(DeletePartitions::from_bytes(&zero_stream.as_bytes()), Err(IggyError::InvalidStreamId));
    let zero_topic = DeletePartitions { stream_id: 1, topic_id: 0, partitions_count: 3 };
    assert_eq!(zero_topic.validate(), Err(IggyError::InvalidTopicId));
    assert_eq!(DeletePartitions::from_str("1|0|3"), Err(IggyError::InvalidTopicId));
    assert_eq!(DeletePartitions::from_str("0|0|3"), Err(IggyError::InvalidStreamId));
}

#[test]
fn malformed_input_is_rejected() {
    assert_eq!(DeletePartitions::from_bytes(&[1, 0, 0, 0]), Err(IggyError::InvalidCommand));
    assert_eq!(DeletePartitions::from_str("1|2"), Err(IggyError::InvalidCommand));
    assert_eq!(DeletePartitions::from_str("1|2|3|4"), Err(IggyError::InvalidCommand));
    assert_eq!(DeletePartitions::from_str("1|x|3"), Err(IggyError::InvalidNumberValue));
    assert_eq!(DeletePartitions::from_str("1||3"), Err(IggyError::InvalidNumberValue));
    assert_eq!(DeletePartitions::from_str("1|4294967296|3"), Err(IggyError::InvalidNumberValue));
    assert_eq!(
        DeletePartitions::from_str("+1|2|3"),
        Ok(DeletePartitions { stream_id: 1, topic_id: 2, partitions_count: 3 })
    );
}

#[test]
fn defaults() {
    assert_eq!(default_partitions_count(), 0);
    assert_eq!(
        DeletePartitions::default(),
        DeletePartitions { stream_id: 1, topic_id: 1, partitions_count: 1 }
    );
}
