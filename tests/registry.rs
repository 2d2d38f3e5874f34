use iggy_core::delete_partitions::DeletePartitions;
use iggy_core::error::IggyError;
use iggy_core::partition::{NewMessage, PartitionLog, PollingStrategy};
use iggy_core::mapper::{encode_stream, map_to_stream};
use iggy_core::models::Stream;
use iggy_core::registry::{EntryCommand, Registry, StateEntry};

fn create_stream(id: Option<u32>, name: &str) -> EntryCommand {
    EntryCommand::CreateStream { stream_id: id, name: name.to_string() }
}

fn create_topic(stream_id: u32, id: Option<u32>, name: &str, partitions_count: u32) -> EntryCommand {
    EntryCommand::CreateTopic { stream_id, topic_id: id, name: name.to_string(), partitions_count }
}

#[test]
fn stream_topic_and_three_messages() {
    let mut registry = Registry::new();
    assert_eq!(registry.apply(create_stream(Some(1), "s")), Ok(()));
    assert_eq!(registry.apply(create_topic(1, Some(1), "t", 2)), Ok(()));
    assert_eq!(registry.streams[0].topics[0].partitions_count, 2);
    let mut partition = PartitionLog::new(1_000_000);
    let batch: Vec<NewMessage> = ["a", "b", "c"]
        .iter()
        .map(|p| NewMessage { timestamp: 0, id: 0, payload: p.as_bytes().to_vec() })
        .collect();
    assert_eq!(partition.append(&batch), Ok((1, 3)));
    let polled = partition.poll(PollingStrategy::Offset(1), 10);
    assert_eq!(polled.iter().map(|m| m.offset).collect::<Vec<_>>(), vec![1, 2, 3]);
    assert_eq!(polled[2].payload, b"c".to_vec());
}

#[test]
fn ids_are_assigned_and_names_are_unique() {
    let mut registry = Registry::new();
    assert_eq!(registry.apply(create_stream(None, "a")), Ok(()));
    assert_eq!(registry.apply(create_stream(Some(7), "b")), Ok(()));
    assert_eq!(registry.apply(create_stream(None, "c")), Ok(()));
    let ids: Vec<u32> = registry.streams.iter().map(|s| s.id).collect();
    assert_eq!(ids, vec![1, 7, 8]);
    assert_eq!(registry.apply(create_stream(None, "a")), Err(IggyError::ResourceAlreadyExists));
    assert_eq!(registry.apply(create_stream(Some(7), "d")), Err(IggyError::ResourceAlreadyExists));
    assert_eq!(registry.apply(create_stream(Some(0), "d")), Err(IggyError::InvalidStreamId));
    assert_eq!(registry.apply(create_topic(7, None, "t", 1)), Ok(()));
    assert_eq!(registry.apply(create_topic(7, None, "u", 1)), Ok(()));
    assert_eq!(registry.streams[1].topics[1].id, 2);
    assert_eq!(registry.apply(create_topic(7, None, "t", 1)), Err(IggyError::ResourceAlreadyExists));
    assert_eq!(registry.apply(create_topic(7, None, "v", 0)), Err(IggyError::InvalidPartitionsCount));
    assert_eq!(registry.apply(create_topic(9, None, "v", 1)), Err(IggyError::ResourceNotFound));
}

#[test]
fn delete_partitions_rules() {
    let mut registry = Registry::new();
    registry.apply(create_stream(Some(1), "s")).unwrap();
    registry.apply(create_topic(1, Some(2), "t", 3)).unwrap();
    let zero_stream = DeletePartitions { stream_id: 0, topic_id: 2, partitions_count: 1 };
    assert_eq!(registry.delete_partitions(&zero_stream), Err(IggyError::InvalidStreamId));
    let zero_topic = DeletePartitions { stream_id: 1, topic_id: 0, partitions_count: 1 };
    assert_eq!(registry.delete_partitions(&zero_topic), Err(IggyError::InvalidTopicId));
    let too_many = DeletePartitions { stream_id: 1, topic_id: 2, partitions_count: 4 };
    assert_eq!(registry.delete_partitions(&too_many), Err(IggyError::InvalidPartitionsCount));
    let two = DeletePartitions { stream_id: 1, topic_id: 2, partitions_count: 2 };
    assert_eq!(registry.delete_partitions(&two), Ok(()));
    assert_eq!(registry.streams[0].topics[0].partitions_count, 1);
    let missing = DeletePartitions { stream_id: 1, topic_id: 5, partitions_count: 1 };
    assert_eq!(registry.delete_partitions(&missing), Err(IggyError::ResourceNotFound));
    assert_eq!(
        registry.apply(EntryCommand::CreatePartitions { stream_id: 1, topic_id: 2, partitions_count: 4 }),
        Ok(())
    );
    assert_eq!(registry.streams[0].topics[0].partitions_count, 5);
}

#[test]
fn replaying_the_log_rebuilds_the_registry() {
    let mut registry = Registry::new();
    let mut log: Vec<StateEntry> = Vec::new();
    assert_eq!(registry.execute(&mut log, 1, 100, create_stream(None, "s")), Ok(()));
    assert_eq!(
        registry.execute(&mut log, 1, 101, create_stream(None, "s")),
        Err(IggyError::ResourceAlreadyExists)
    );
    assert_eq!(registry.execute(&mut log, 2, 102, create_topic(1, None, "t", 4)), Ok(()));
    assert_eq!(registry.execute(&mut log, 2, 103, create_stream(None, "x")), Ok(()));
    assert_eq!(
        registry.execute(
            &mut log,
            3,
            104,
            EntryCommand::DeletePartitions(DeletePartitions { stream_id: 1, topic_id: 1, partitions_count: 1 })
        ),
        Ok(())
    );
    assert_eq!(registry.execute(&mut log, 3, 105, EntryCommand::DeleteStream { stream_id: 2 }), Ok(()));
    assert_eq!(log.len(), 5);
    assert_eq!(log.iter().map(|e| e.seq).collect::<Vec<_>>(), vec![1, 2, 3, 4, 5]);
    assert_eq!(log.iter().map(|e| e.user_id).collect::<Vec<_>>(), vec![1, 2, 2, 3, 3]);
    assert_eq!(log[1].timestamp, 102);
    let restored = Registry::replay(&log).unwrap();
    assert_eq!(restored.streams.len(), 1);
    assert_eq!(restored.streams[0].name, "s");
    assert_eq!(restored.streams[0].topics[0].partitions_count, 3);
    let bad = vec![StateEntry { seq: 1, timestamp: 0, user_id: 1, command: EntryCommand::DeleteStream { stream_id: 1 } }];
    assert!(matches!(Registry::replay(&bad), Err(IggyError::CorruptState)));
    let misnumbered = vec![StateEntry { seq: 2, timestamp: 0, user_id: 1, command: create_stream(None, "s") }];
    assert!(matches!(Registry::replay(&misnumbered), Err(IggyError::CorruptState)));
}

#[test]
fn created_stream_response_round_trips() {
    let stream = Stream { id: 3, topics_count: 0, name: "stręam".to_string() };
    let bytes = encode_stream(&stream).unwrap();
    let name_len = "stręam".len();
    assert_eq!(bytes.len(), 12 + name_len);
    assert_eq!(&bytes[..12], &[3, 0, 0, 0, 0, 0, 0, 0, name_len as u8, 0, 0, 0]);
    assert_eq!(map_to_stream(&bytes, 0), Ok((stream, 12 + name_len)));
}
