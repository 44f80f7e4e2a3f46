use std::sync::Arc;
use streamlog::configs::{SegmentConfig, SystemConfig};
use streamlog::error::LogError;
use streamlog::message::Message;
use streamlog::segment::{Segment, SegmentStorage};

fn message(offset: u64, timestamp: u64, payload_len: usize) -> Message {
    let mut message = Message::new(offset as u128 + 1, 7, Vec::new(), vec![9u8; payload_len]);
    message.offset = offset;
    message.timestamp = timestamp;
    message
}

fn config_with_size(size: u32) -> Arc<SystemConfig> {
    Arc::new(SystemConfig {
        segment: SegmentConfig { size, ..Default::default() },
        ..Default::default()
    })
}

#[test]
fn should_be_created_given_valid_parameters() {
    let stream_id = 1;
    let topic_id = 2;
    let partition_id = 3;
    let start_offset = 0;
    let config = Arc::new(SystemConfig::default());
    let path = config.get_segment_path(stream_id, topic_id, partition_id, start_offset);
    let log_path = format!("{}.{}", path, "log");
    let index_path = format!("{}.{}", path, "index");
    let time_index_path = format!("{}.{}", path, "timeindex");
    let message_expiry = Some(10);

    let segment = Segment::create(
        stream_id,
        topic_id,
        partition_id,
        start_offset,
        config,
        message_expiry,
    );

    assert_eq!(segment.stream_id, stream_id);
    assert_eq!(segment.topic_id, topic_id);
    assert_eq!(segment.partition_id, partition_id);
    assert_eq!(segment.start_offset, start_offset);
    assert_eq!(segment.current_offset, 0);
    assert_eq!(segment.end_offset, 0);
    assert_eq!(segment.size_bytes, 0);
    assert_eq!(segment.log_path, log_path);
    assert_eq!(segment.index_path, index_path);
    assert_eq!(segment.time_index_path, time_index_path);
    assert_eq!(segment.message_expiry, message_expiry);
    assert!(segment.unsaved_messages.is_none());
    assert!(segment.indexes.is_some());
    assert!(segment.time_indexes.is_some());
    assert!(!segment.is_closed);
    assert!(!segment.is_full());
}

#[test]
fn should_not_initialize_indexes_cache_when_disabled() {
    let config = Arc::new(SystemConfig {
        segment: SegmentConfig { cache_indexes: false, ..Default::default() },
        ..Default::default()
    });
    let segment = Segment::create(1, 2, 3, 0, config, None);
    assert!(segment.indexes.is_none());
}

#[test]
fn should_not_initialize_time_indexes_cache_when_disabled() {
    let config = Arc::new(SystemConfig {
        segment: SegmentConfig { cache_time_indexes: false, ..Default::default() },
        ..Default::default()
    });
    let segment = Segment::create(1, 2, 3, 0, config, None);
    assert!(segment.time_indexes.is_none());
}

#[test]
fn segment_paths_follow_the_file_layout() {
    let config = Arc::new(SystemConfig::default());
    let segment = Segment::create(1, 2, 3, 100, config, None);
    assert_eq!(
        segment.log_path,
        "local_data/streams/1/topics/2/partitions/3/segments/100.log"
    );
    assert_eq!(
        segment.index_path,
        "local_data/streams/1/topics/2/partitions/3/segments/100.index"
    );
    assert_eq!(
        segment.time_index_path,
        "local_data/streams/1/topics/2/partitions/3/segments/100.timeindex"
    );
}

#[test]
fn persist_writes_log_and_both_indexes() {
    let mut segment = Segment::create(1, 1, 1, 10, config_with_size(1000), None);
    let appended = segment.append_messages(vec![message(10, 100, 5), message(11, 100, 15)]);
    assert_eq!(appended, Ok(()));
    assert_eq!(segment.size_bytes, 0);
    assert_eq!(segment.unsaved_bytes, 110);
    assert!(segment.get_messages(10, 1).is_err());

    let growth = segment.persist_messages();
    assert_eq!(growth.size_bytes, 110);
    assert_eq!(growth.messages_count, 2);
    assert_eq!(segment.size_bytes, 110);
    assert_eq!(segment.current_offset, 12);
    assert_eq!(segment.end_offset, 11);
    assert!(segment.unsaved_messages.is_none());
    assert_eq!(segment.storage.log.len(), 110);
    assert_eq!(segment.storage.index.len(), 16);
    assert_eq!(segment.storage.time_index.len(), 24);
    assert_eq!(
        segment.storage.index,
        vec![0, 0, 0, 0, 0, 0, 0, 0, 1, 0, 0, 0, 50, 0, 0, 0]
    );
    assert_eq!(segment.indexes.as_ref().unwrap().len(), 2);
    assert_eq!(segment.indexes.as_ref().unwrap()[1].position, 50);
    assert_eq!(segment.time_indexes.as_ref().unwrap()[1].timestamp, 100);

    let read = segment.get_messages(11, 5).unwrap();
    assert_eq!(read.len(), 1);
    assert_eq!(read[0].offset, 11);
    assert_eq!(read[0].payload, vec![9u8; 15]);
    assert_eq!(read[0].id, 12);
}

#[test]
fn persist_on_empty_buffer_changes_nothing() {
    let mut segment = Segment::create(1, 1, 1, 0, config_with_size(1000), None);
    segment.append_messages(vec![message(0, 1, 5)]).unwrap();
    segment.persist_messages();
    let log = segment.storage.log.clone();
    let growth = segment.persist_messages();
    assert_eq!(growth.size_bytes, 0);
    assert_eq!(growth.messages_count, 0);
    assert_eq!(segment.storage.log, log);
    assert_eq!(segment.size_bytes, 50);
    assert_eq!(segment.current_offset, 1);
}

#[test]
fn append_is_refused_for_each_reason() {
    let mut segment = Segment::create(1, 1, 1, 0, config_with_size(1000), None);
    segment.append_messages(vec![message(0, 50, 5)]).unwrap();
    assert_eq!(
        segment.append_messages(vec![message(2, 60, 5)]),
        Err(LogError::InvalidOffset)
    );
    assert_eq!(
        segment.append_messages(vec![message(1, 49, 5)]),
        Err(LogError::InvalidTimestamp)
    );
    assert_eq!(
        segment.append_messages(vec![message(1, 60, 1_000_000_000)]),
        Err(LogError::TooLarge)
    );
    assert_eq!(segment.unsaved_bytes, 50);
    segment.close();
    assert!(segment.is_closed);
    assert_eq!(
        segment.append_messages(vec![message(1, 60, 5)]),
        Err(LogError::SegmentClosed)
    );
}

#[test]
fn segment_expires_by_its_newest_message() {
    let mut segment = Segment::create(1, 1, 1, 0, config_with_size(1000), Some(10));
    assert!(!segment.is_expired(u64::MAX));
    segment.append_messages(vec![message(0, 0, 5)]).unwrap();
    segment.persist_messages();
    assert!(!segment.is_expired(9_999_999));
    assert!(segment.is_expired(10_000_000));
    assert!(segment.is_expired(11_000_000));
    assert!(segment.is_full_at(11_000_000));
    assert!(!segment.is_full_at(1));
    assert!(segment.is_full());
}

#[test]
fn segment_is_full_at_its_size() {
    let mut segment = Segment::create(1, 1, 1, 0, config_with_size(100), None);
    segment.append_messages(vec![message(0, 0, 5), message(1, 0, 5)]).unwrap();
    assert!(!segment.is_full());
    segment.persist_messages();
    assert!(segment.is_full());
    assert!(segment.is_full_at(0));
    assert_eq!(segment.is_full_at(5), segment.is_full_at(5));
    assert_eq!(segment.size_bytes, 100);
}

#[test]
fn load_round_trips_persisted_files() {
    let mut segment = Segment::create(1, 1, 1, 5, config_with_size(1000), None);
    segment
        .append_messages(vec![message(5, 10, 1), message(6, 20, 2), message(7, 30, 3)])
        .unwrap();
    segment.persist_messages();
    let files = SegmentStorage {
        log: segment.storage.log.clone(),
        index: segment.storage.index.clone(),
        time_index: segment.storage.time_index.clone(),
    };
    let mut loaded = Segment::create(1, 1, 1, 5, config_with_size(1000), None);
    let recovered = loaded.load(files);
    assert!(!recovered);
    assert_eq!(loaded.size_bytes, segment.size_bytes);
    assert_eq!(loaded.current_offset, 8);
    assert_eq!(loaded.end_offset, 7);
    let read = loaded.get_messages(5, 10).unwrap();
    assert_eq!(read.len(), 3);
    for (k, message) in read.iter().enumerate() {
        assert_eq!(message.offset, 5 + k as u64);
        assert_eq!(message.timestamp, 10 * (k as u64 + 1));
        assert_eq!(message.id, 6 + k as u128);
        assert_eq!(message.checksum, 7);
        assert_eq!(message.payload, vec![9u8; k + 1]);
        assert!(message.headers.is_empty());
    }
}

#[test]
fn load_truncates_to_the_shortest_file() {
    let mut segment = Segment::create(1, 1, 1, 0, config_with_size(100_000), None);
    let batch: Vec<Message> = (0..10).map(|k| message(k, k, 5)).collect();
    segment.append_messages(batch).unwrap();
    segment.persist_messages();
    let mut time_index = segment.storage.time_index.clone();
    time_index.truncate(9 * 12);
    let files = SegmentStorage {
        log: segment.storage.log.clone(),
        index: segment.storage.index.clone(),
        time_index,
    };
    let mut loaded = Segment::create(1, 1, 1, 0, config_with_size(100_000), None);
    let recovered = loaded.load(files);
    assert!(recovered);
    assert_eq!(loaded.storage.log.len(), 9 * 50);
    assert_eq!(loaded.storage.index.len(), 9 * 8);
    assert_eq!(loaded.storage.time_index.len(), 9 * 12);
    assert_eq!(loaded.current_offset, 9);
    assert_eq!(loaded.end_offset, 8);
    assert!(!loaded.is_closed);
    assert_eq!(loaded.append_messages(vec![message(9, 9, 5)]), Ok(()));
}

#[test]
fn newest_messages_by_size_takes_the_longest_tail() {
    let mut segment = Segment::create(1, 1, 1, 0, config_with_size(100_000), None);
    let batch: Vec<Message> = (0..4).map(|k| message(k, k, 5)).collect();
    segment.append_messages(batch).unwrap();
    segment.persist_messages();
    assert_eq!(segment.get_newest_messages_by_size(49).len(), 0);
    assert_eq!(segment.get_newest_messages_by_size(50).len(), 1);
    let two = segment.get_newest_messages_by_size(149);
    assert_eq!(two.len(), 2);
    assert_eq!(two[0].offset, 2);
    assert_eq!(two[1].offset, 3);
    assert_eq!(segment.get_newest_messages_by_size(u64::MAX).len(), 4);
}

#[test]
fn segment_finds_offset_by_timestamp() {
    let mut segment = Segment::create(1, 1, 1, 100, config_with_size(100_000), None);
    segment
        .append_messages(vec![message(100, 10, 1), message(101, 20, 1), message(102, 20, 1)])
        .unwrap();
    segment.persist_messages();
    assert_eq!(segment.find_offset_by_timestamp(0), 100);
    assert_eq!(segment.find_offset_by_timestamp(11), 101);
    assert_eq!(segment.find_offset_by_timestamp(20), 101);
    assert_eq!(segment.find_offset_by_timestamp(21), 103);
}
