use std::sync::Arc;
use streamlog::configs::{CacheConfig, SegmentConfig, SystemConfig};
use streamlog::error::LogError;
use streamlog::message::Message;
use streamlog::partition::Partition;
use streamlog::segment::{SegmentFiles, SegmentStorage};
use streamlog::stream::Stream;
use streamlog::system::System;
use streamlog::topic::Topic;

fn config(size: u32) -> Arc<SystemConfig> {
    Arc::new(SystemConfig {
        segment: SegmentConfig { size, ..Default::default() },
        cache: CacheConfig { enabled: true, messages_amount: 4 },
        ..Default::default()
    })
}

fn message(payload_len: usize) -> Message {
    Message::new(1, 2, Vec::new(), vec![3u8; payload_len])
}

fn batch(count: usize, payload_len: usize) -> Vec<Message> {
    (0..count).map(|_| message(payload_len)).collect()
}

#[test]
fn counters_add_up_through_the_hierarchy() {
    let mut system = System::init(config(1000)).unwrap();
    system.create_stream(1, "S".to_string(), 0).unwrap();
    system.create_topic(1, 1, "T".to_string(), 2, None, 0, 0).unwrap();
    for partition_id in [1, 2] {
        let growth = system.append_messages(1, 1, partition_id, batch(3, 5), 10).unwrap();
        assert_eq!(growth.size_bytes, 150);
        assert_eq!(growth.messages_count, 3);
    }
    let stream = system.get_stream(1).unwrap();
    let topic = stream.get_topic(1).unwrap();
    let first = topic.get_partition(1).unwrap();
    let second = topic.get_partition(2).unwrap();
    assert_eq!(first.counters.size_bytes, 150);
    assert_eq!(second.counters.size_bytes, 150);
    assert_eq!(first.segments[0].size_bytes, 150);
    assert_eq!(topic.counters.size_bytes, 300);
    assert_eq!(stream.counters.size_bytes, 300);
    assert_eq!(system.counters.size_bytes, 300);
    assert_eq!(topic.counters.messages_count, 6);
    assert_eq!(stream.counters.messages_count, 6);
    assert_eq!(system.counters.messages_count, 6);
    assert_eq!(first.get_messages_by_offset(0, 10).unwrap().len(), 3);
}

#[test]
fn names_and_ids_are_unique_in_their_scope() {
    let mut system = System::init(config(1000)).unwrap();
    assert_eq!(system.create_stream(1, "a".to_string(), 0), Ok(()));
    assert_eq!(system.create_stream(1, "b".to_string(), 0), Err(LogError::AlreadyExists));
    assert_eq!(system.create_stream(2, "a".to_string(), 0), Err(LogError::AlreadyExists));
    assert_eq!(system.create_stream(2, "b".to_string(), 0), Ok(()));
    assert_eq!(system.create_topic(1, 1, "t".to_string(), 1, None, 0, 0), Ok(()));
    assert_eq!(
        system.create_topic(1, 1, "u".to_string(), 1, None, 0, 0),
        Err(LogError::AlreadyExists)
    );
    assert_eq!(
        system.create_topic(1, 2, "t".to_string(), 1, None, 0, 0),
        Err(LogError::AlreadyExists)
    );
    assert_eq!(system.create_topic(2, 1, "t".to_string(), 1, None, 0, 0), Ok(()));
    assert_eq!(
        system.create_topic(3, 1, "t".to_string(), 1, None, 0, 0),
        Err(LogError::NotFound)
    );
    assert_eq!(system.find_stream(2), Some(1));
    assert_eq!(system.find_stream_by_name(&"b".to_string()), Some(1));
    assert_eq!(system.find_stream_by_name(&"c".to_string()), None);
    assert_eq!(system.get_stream_by_name(&"a".to_string()).unwrap().id, 1);
    assert!(system.get_stream(9).is_err());
    let stream = system.get_stream(1).unwrap();
    assert_eq!(stream.get_topic_by_name(&"t".to_string()).unwrap().id, 1);
    assert!(stream.get_topic_by_name(&"x".to_string()).is_err());
    assert!(stream.get_topic(1).unwrap().get_partition(2).is_err());
}

#[test]
fn append_reports_what_is_missing() {
    let mut system = System::init(config(1000)).unwrap();
    system.create_stream(1, "s".to_string(), 0).unwrap();
    system.create_topic(1, 1, "t".to_string(), 1, None, 0, 0).unwrap();
    assert_eq!(system.append_messages(2, 1, 1, batch(1, 1), 0).err(), Some(LogError::NotFound));
    assert_eq!(system.append_messages(1, 2, 1, batch(1, 1), 0).err(), Some(LogError::NotFound));
    assert_eq!(system.append_messages(1, 1, 2, batch(1, 1), 0).err(), Some(LogError::NotFound));
    assert_eq!(
        system.append_messages(1, 1, 1, batch(1, 1_000_000_000), 0).err(),
        Some(LogError::TooLarge)
    );
    assert_eq!(system.counters.size_bytes, 0);
    assert!(system.append_messages(1, 1, 1, batch(1, 1), 0).is_ok());
}

#[test]
fn deleting_releases_the_counters() {
    let mut system = System::init(config(1000)).unwrap();
    system.create_stream(1, "s".to_string(), 0).unwrap();
    system.create_stream(2, "r".to_string(), 0).unwrap();
    system.create_topic(1, 1, "t".to_string(), 1, None, 0, 0).unwrap();
    system.create_topic(1, 2, "u".to_string(), 1, None, 0, 0).unwrap();
    system.create_topic(2, 1, "t".to_string(), 1, None, 0, 0).unwrap();
    system.append_messages(1, 1, 1, batch(2, 5), 0).unwrap();
    system.append_messages(1, 2, 1, batch(1, 5), 0).unwrap();
    system.append_messages(2, 1, 1, batch(4, 5), 0).unwrap();
    assert_eq!(system.counters.size_bytes, 350);
    let topic = system.delete_topic(1, 1).unwrap();
    assert_eq!(topic.counters.size_bytes, 100);
    assert_eq!(system.counters.size_bytes, 250);
    assert_eq!(system.get_stream(1).unwrap().counters.size_bytes, 50);
    assert_eq!(system.delete_topic(1, 1).err(), Some(LogError::NotFound));
    assert_eq!(system.delete_topic(7, 1).err(), Some(LogError::NotFound));
    let stream = system.delete_stream(2).unwrap();
    assert_eq!(stream.counters.messages_count, 4);
    assert_eq!(system.counters.size_bytes, 50);
    assert_eq!(system.counters.messages_count, 1);
    assert_eq!(system.delete_stream(2).err(), Some(LogError::NotFound));
    assert_eq!(system.streams.len(), 1);
}

#[test]
fn consumers_read_through_the_system() {
    let mut system = System::init(config(1000)).unwrap();
    system.create_stream(1, "s".to_string(), 0).unwrap();
    system.create_topic(1, 1, "t".to_string(), 1, None, 0, 0).unwrap();
    system.append_messages(1, 1, 1, batch(5, 5), 0).unwrap();
    let first = system.get_messages_by_consumer(1, 1, 1, 42, 2).unwrap();
    assert_eq!(first.iter().map(|m| m.offset).collect::<Vec<u64>>(), vec![0, 1]);
    let second = system.get_messages_by_consumer(1, 1, 1, 42, 10).unwrap();
    assert_eq!(second.iter().map(|m| m.offset).collect::<Vec<u64>>(), vec![2, 3, 4]);
    assert!(system.get_messages_by_consumer(1, 1, 1, 42, 10).unwrap().is_empty());
    assert_eq!(
        system.get_messages_by_consumer(1, 1, 9, 42, 10).err(),
        Some(LogError::NotFound)
    );
    assert_eq!(
        system.get_messages_by_consumer(1, 9, 1, 42, 10).err(),
        Some(LogError::NotFound)
    );
    assert_eq!(
        system.get_messages_by_consumer(9, 1, 1, 42, 10).err(),
        Some(LogError::NotFound)
    );
}

#[test]
fn retention_by_age_spares_the_open_segment() {
    let mut topic = Topic::create(1, 1, "t".to_string(), 2, config(100), Some(10), 0, 0).unwrap();
    for now in [0u64, 1, 2, 3, 4] {
        topic.append_messages(1, batch(1, 5), now * 1_000_000).unwrap();
    }
    topic.append_messages(2, batch(1, 5), 0).unwrap();
    assert_eq!(topic.get_partition(1).unwrap().segments.len(), 3);
    let (none, _) = topic.delete_expired_segments(10_999_999);
    assert!(none.is_empty());
    let (removed, released) = topic.delete_expired_segments(11_000_000);
    assert_eq!(removed.len(), 1);
    assert_eq!(removed[0].start_offset, 0);
    assert_eq!(released.size_bytes, 100);
    assert_eq!(topic.counters.size_bytes, 200);
    let (rest, _) = topic.delete_expired_segments(u64::MAX);
    assert_eq!(rest.len(), 1);
    assert_eq!(topic.get_partition(1).unwrap().segments.len(), 1);
    assert_eq!(topic.get_partition(2).unwrap().segments.len(), 1);
    assert_eq!(topic.counters.size_bytes, 100);
    assert_eq!(topic.counters.messages_count, 2);
}

#[test]
fn retention_by_size_deletes_oldest_sealed_segments_first() {
    let mut topic = Topic::create(1, 1, "t".to_string(), 2, config(100), None, 250, 0).unwrap();
    topic.append_messages(1, batch(5, 5), 0).unwrap();
    topic.append_messages(2, batch(3, 5), 0).unwrap();
    assert_eq!(topic.counters.size_bytes, 400);
    assert_eq!(topic.oldest_sealed(), Some(0));
    let (removed, released) = topic.enforce_max_size();
    assert_eq!(removed.len(), 2);
    assert_eq!(removed[0].partition_id, 1);
    assert_eq!(removed[0].start_offset, 0);
    assert_eq!(removed[1].partition_id, 2);
    assert_eq!(removed[1].start_offset, 0);
    assert_eq!(released.size_bytes, 200);
    assert_eq!(topic.counters.size_bytes, 200);
    let (nothing, _) = topic.enforce_max_size();
    assert!(nothing.is_empty());
    topic.max_topic_size = 1;
    let (more, _) = topic.enforce_max_size();
    assert_eq!(more.len(), 1);
    assert_eq!(more[0].partition_id, 1);
    assert_eq!(more[0].start_offset, 2);
    assert_eq!(topic.oldest_sealed(), None);
    assert_eq!(topic.counters.size_bytes, 100);
    topic.max_topic_size = 0;
    assert!(topic.delete_oldest_segment().0.is_empty());
}

#[test]
fn retention_runs_over_all_streams() {
    let mut system = System::init(config(100)).unwrap();
    system.create_stream(1, "s".to_string(), 0).unwrap();
    system.create_stream(2, "r".to_string(), 0).unwrap();
    system.create_topic(1, 1, "aged".to_string(), 1, Some(1), 0, 0).unwrap();
    system.create_topic(2, 1, "sized".to_string(), 1, None, 100, 0).unwrap();
    system.append_messages(1, 1, 1, batch(3, 5), 0).unwrap();
    system.append_messages(2, 1, 1, batch(5, 5), 0).unwrap();
    assert_eq!(system.counters.size_bytes, 400);
    let (removed, released) = system.apply_retention(2_000_000);
    assert_eq!(removed.len(), 3);
    assert_eq!(released.size_bytes, 300);
    assert_eq!(released.messages_count, 6);
    assert_eq!(system.counters.size_bytes, 100);
    assert_eq!(system.get_stream(1).unwrap().counters.size_bytes, 50);
    assert_eq!(system.get_stream(2).unwrap().counters.size_bytes, 50);
}

#[test]
fn empty_stream_and_invalid_configuration() {
    assert_eq!(System::init(config(0)).err(), Some(LogError::ConfigError));
    assert_eq!(Stream::create(1, "s".to_string(), config(0), 0).err(), Some(LogError::ConfigError));
    assert_eq!(
        Topic::create(1, 1, "t".to_string(), 1, config(0), None, 0, 0).err(),
        Some(LogError::ConfigError)
    );
    let stream = Stream::create(4, "s".to_string(), config(10), 9).unwrap();
    assert_eq!(stream.id, 4);
    assert_eq!(stream.created_at, 9);
    assert!(stream.topics.is_empty());
}

fn files_of(partition: &Partition) -> Vec<SegmentFiles> {
    partition
        .segments
        .iter()
        .map(|segment| SegmentFiles {
            start_offset: segment.start_offset,
            storage: SegmentStorage {
                log: segment.storage.log.clone(),
                index: segment.storage.index.clone(),
                time_index: segment.storage.time_index.clone(),
            },
        })
        .collect()
}

fn written() -> Partition {
    let mut partition = Partition::create(1, 1, 1, config(500), None, 0).unwrap();
    for k in 0..25u64 {
        let mut one = Message::new(k as u128, k as u32, vec![k as u8], vec![k as u8; 4]);
        one.checksum = k as u32 * 3;
        partition.append_messages(vec![one], 100 + k).unwrap();
    }
    partition
}

#[test]
fn loading_persisted_files_gives_the_messages_back() {
    let partition = written();
    assert_eq!(partition.segments.len(), 3);
    let (loaded, recovered) =
        Partition::load(1, 1, 1, config(500), None, 0, files_of(&partition)).unwrap();
    assert!(!recovered);
    assert_eq!(loaded.current_offset, 25);
    assert_eq!(loaded.newest_timestamp, 124);
    assert_eq!(loaded.counters, partition.counters);
    assert_eq!(loaded.segments.len(), 3);
    let before = partition.get_messages_by_offset(0, 100).unwrap();
    let after = loaded.get_messages_by_offset(0, 100).unwrap();
    assert_eq!(after.len(), 25);
    for (x, y) in before.iter().zip(after.iter()) {
        assert_eq!(x.offset, y.offset);
        assert_eq!(x.timestamp, y.timestamp);
        assert_eq!(x.id, y.id);
        assert_eq!(x.checksum, y.checksum);
        assert_eq!(x.headers, y.headers);
        assert_eq!(x.payload, y.payload);
    }
}

#[test]
fn loading_recovers_a_short_index_and_stays_writable() {
    let mut partition = Partition::create(1, 1, 1, config(100_000), None, 0).unwrap();
    partition.append_messages(batch(10, 5), 7).unwrap();
    let mut files = files_of(&partition);
    files[0].storage.time_index.truncate(9 * 12);
    let (mut loaded, recovered) =
        Partition::load(1, 1, 1, config(100_000), None, 0, files).unwrap();
    assert!(recovered);
    let segment = &loaded.segments[0];
    assert_eq!(segment.storage.log.len(), 9 * 50);
    assert_eq!(segment.storage.index.len(), 9 * 8);
    assert_eq!(segment.storage.time_index.len(), 9 * 12);
    assert_eq!(loaded.current_offset, 9);
    assert_eq!(loaded.counters.messages_count, 9);
    assert!(loaded.append_messages(batch(1, 5), 8).is_ok());
    assert_eq!(loaded.get_messages_by_offset(9, 1).unwrap()[0].offset, 9);
}

#[test]
fn loading_refuses_segments_that_do_not_continue() {
    let partition = written();
    let mut gap = files_of(&partition);
    gap.remove(1);
    assert_eq!(
        Partition::load(1, 1, 1, config(500), None, 0, gap).err(),
        Some(LogError::CorruptedIndex)
    );
    let mut cut = files_of(&partition);
    cut[0].storage.index.truncate(8);
    assert_eq!(
        Partition::load(1, 1, 1, config(500), None, 0, cut).err(),
        Some(LogError::CorruptedIndex)
    );
    assert_eq!(
        Partition::load(1, 1, 1, config(0), None, 0, files_of(&partition)).err(),
        Some(LogError::ConfigError)
    );
}

#[test]
fn loading_without_files_or_with_a_full_last_segment() {
    let (empty, recovered) = Partition::load(1, 1, 1, config(500), None, 3, Vec::new()).unwrap();
    assert!(!recovered);
    assert_eq!(empty.segments.len(), 1);
    assert_eq!(empty.current_offset, 0);
    assert_eq!(empty.created_at, 3);
    let mut partition = Partition::create(1, 1, 1, config(100), None, 0).unwrap();
    partition.append_messages(batch(2, 5), 7).unwrap();
    let (loaded, _) = Partition::load(1, 1, 1, config(100), None, 0, files_of(&partition)).unwrap();
    assert_eq!(loaded.segments.len(), 2);
    assert!(loaded.segments[0].is_closed);
    assert!(!loaded.segments[1].is_closed);
    assert_eq!(loaded.segments[1].start_offset, 2);
    assert_eq!(loaded.current_offset, 2);
}

fn partition_files(partition: &Partition) -> streamlog::topic::PartitionFiles {
    streamlog::topic::PartitionFiles { partition_id: partition.id, segments: files_of(partition) }
}

#[test]
fn topic_is_rebuilt_from_its_files() {
    let mut topic = Topic::create(1, 7, "t".to_string(), 2, config(100), None, 0, 5).unwrap();
    topic.append_messages(1, batch(5, 5), 10).unwrap();
    topic.append_messages(2, batch(1, 5), 20).unwrap();
    let files: Vec<_> = topic.partitions.iter().map(partition_files).collect();
    let (loaded, recovered) =
        Topic::load(1, 7, "t".to_string(), config(100), None, 0, 5, files).unwrap();
    assert!(!recovered);
    assert_eq!(loaded.id, 7);
    assert_eq!(loaded.name, "t");
    assert_eq!(loaded.counters, topic.counters);
    assert_eq!(loaded.partitions.len(), 2);
    assert_eq!(loaded.get_partition(1).unwrap().current_offset, 5);
    assert_eq!(loaded.get_partition(2).unwrap().current_offset, 1);
    assert_eq!(loaded.get_partition(1).unwrap().get_messages_by_offset(3, 9).unwrap().len(), 2);

    let doubled: Vec<_> = vec![partition_files(&topic.partitions[0]), partition_files(&topic.partitions[0])];
    assert_eq!(
        Topic::load(1, 7, "t".to_string(), config(100), None, 0, 5, doubled).err(),
        Some(LogError::AlreadyExists)
    );
    let mut broken = vec![partition_files(&topic.partitions[0])];
    broken[0].segments.remove(1);
    assert_eq!(
        Topic::load(1, 7, "t".to_string(), config(100), None, 0, 5, broken).err(),
        Some(LogError::CorruptedIndex)
    );
}

#[test]
fn system_takes_a_loaded_topic_into_its_counters() {
    let mut source = Topic::create(1, 1, "t".to_string(), 1, config(100), None, 0, 0).unwrap();
    source.append_messages(1, batch(3, 5), 10).unwrap();
    let files = || -> Vec<_> { source.partitions.iter().map(partition_files).collect() };
    let mut system = System::init(config(100)).unwrap();
    assert_eq!(
        system.load_topic(1, 1, "t".to_string(), None, 0, 0, files()),
        Err(LogError::NotFound)
    );
    system.create_stream(1, "s".to_string(), 0).unwrap();
    assert_eq!(system.load_topic(1, 1, "t".to_string(), None, 0, 0, files()), Ok(false));
    assert_eq!(
        system.load_topic(1, 1, "u".to_string(), None, 0, 0, files()),
        Err(LogError::AlreadyExists)
    );
    assert_eq!(
        system.load_topic(1, 2, "t".to_string(), None, 0, 0, files()),
        Err(LogError::AlreadyExists)
    );
    assert_eq!(system.counters.size_bytes, 150);
    assert_eq!(system.counters.messages_count, 3);
    assert_eq!(system.get_stream(1).unwrap().counters.size_bytes, 150);
    let mut cut = files();
    cut[0].segments[1].storage.time_index.truncate(0);
    assert_eq!(system.load_topic(1, 2, "u".to_string(), None, 0, 0, cut), Ok(true));
    assert_eq!(system.counters.size_bytes, 250);
    assert!(system.append_messages(1, 2, 1, batch(1, 5), 30).is_ok());
    assert_eq!(system.counters.size_bytes, 300);
    let topic = system.get_stream(1).unwrap().get_topic(2).unwrap();
    assert_eq!(topic.get_partition(1).unwrap().current_offset, 3);

    let mut stream = Stream::create(2, "r".to_string(), config(100), 0).unwrap();
    assert_eq!(stream.load_topic(4, "x".to_string(), None, 0, 0, files()), Ok(false));
    assert_eq!(stream.counters.size_bytes, 150);
    assert_eq!(
        stream.load_topic(4, "y".to_string(), None, 0, 0, files()),
        Err(LogError::AlreadyExists)
    );
}

#[test]
fn purging_a_partition_releases_its_counters() {
    let mut system = System::init(config(100)).unwrap();
    system.create_stream(1, "s".to_string(), 0).unwrap();
    system.create_topic(1, 1, "t".to_string(), 2, None, 0, 0).unwrap();
    system.append_messages(1, 1, 1, batch(3, 5), 10).unwrap();
    system.append_messages(1, 1, 2, batch(1, 5), 10).unwrap();
    assert_eq!(system.purge_partition(2, 1, 1).err(), Some(LogError::NotFound));
    assert_eq!(system.purge_partition(1, 2, 1).err(), Some(LogError::NotFound));
    assert_eq!(system.purge_partition(1, 1, 3).err(), Some(LogError::NotFound));
    let (removed, released) = system.purge_partition(1, 1, 1).unwrap();
    assert_eq!(removed.len(), 2);
    assert_eq!(released.size_bytes, 150);
    assert_eq!(released.messages_count, 3);
    assert_eq!(system.counters.size_bytes, 50);
    let stream = system.get_stream(1).unwrap();
    assert_eq!(stream.counters.size_bytes, 50);
    let topic = stream.get_topic(1).unwrap();
    assert_eq!(topic.counters.messages_count, 1);
    assert_eq!(topic.get_partition(1).unwrap().current_offset, 0);
    assert_eq!(topic.get_partition(2).unwrap().current_offset, 1);
}
