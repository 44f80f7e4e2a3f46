use std::sync::Arc;
use streamlog::configs::{CacheConfig, SegmentConfig, SystemConfig};
use streamlog::error::LogError;
use streamlog::message::Message;
use streamlog::partition::Partition;

fn payload_message(id: u128, payload_len: usize) -> Message {
    Message::new(id, 0, Vec::new(), vec![1u8; payload_len])
}

fn config(size: u32, cache: bool, amount: u64) -> Arc<SystemConfig> {
    Arc::new(SystemConfig {
        segment: SegmentConfig { size, ..Default::default() },
        cache: CacheConfig { enabled: cache, messages_amount: amount },
        ..Default::default()
    })
}

fn partition(size: u32, cache: bool, expiry: Option<u32>) -> Partition {
    Partition::create(1, 2, 3, config(size, cache, 10), expiry, 77).unwrap()
}

#[test]
fn partition_is_created_empty() {
    let partition = partition(1000, true, None);
    assert_eq!(partition.stream_id, 1);
    assert_eq!(partition.topic_id, 2);
    assert_eq!(partition.id, 3);
    assert_eq!(partition.created_at, 77);
    assert_eq!(partition.current_offset, 0);
    assert_eq!(partition.segments.len(), 1);
    assert_eq!(partition.segments[0].start_offset, 0);
    assert_eq!(partition.counters.size_bytes, 0);
    assert_eq!(partition.counters.messages_count, 0);
    assert!(partition.cache.as_ref().unwrap().is_empty());
    assert!(partition.get_messages_by_offset(0, 1).is_err());
}

#[test]
fn partition_refuses_invalid_configuration() {
    assert_eq!(
        Partition::create(1, 2, 3, config(0, true, 10), None, 0).err(),
        Some(LogError::ConfigError)
    );
    assert_eq!(
        Partition::create(1, 2, 3, config(1_000_000_001, true, 10), None, 0).err(),
        Some(LogError::ConfigError)
    );
}

#[test]
fn segment_rolls_over_at_size() {
    let mut partition = partition(100, false, None);
    for id in 0..3 {
        let growth = partition.append_messages(vec![payload_message(id, 0)], 5).unwrap();
        assert_eq!(growth.size_bytes, 45);
        assert_eq!(growth.messages_count, 1);
    }
    assert_eq!(partition.segments.len(), 2);
    let sealed = &partition.segments[0];
    assert!(sealed.is_closed);
    assert_eq!(sealed.size_bytes, 90);
    assert_eq!(sealed.current_offset - sealed.start_offset, 2);
    assert_eq!(sealed.end_offset, 1);
    let active = &partition.segments[1];
    assert!(!active.is_closed);
    assert_eq!(active.start_offset, 2);
    assert_eq!(active.size_bytes, 45);
    assert_eq!(active.end_offset, 2);
    assert_eq!(partition.counters.size_bytes, 135);
    assert_eq!(partition.counters.messages_count, 3);
}

#[test]
fn batch_rolls_over_like_single_appends() {
    let mut partition = partition(100, false, None);
    let batch = (0..5).map(|id| payload_message(id, 0)).collect();
    let growth = partition.append_messages(batch, 5).unwrap();
    assert_eq!(growth.size_bytes, 225);
    assert_eq!(growth.messages_count, 5);
    let starts: Vec<u64> = partition.segments.iter().map(|s| s.start_offset).collect();
    assert_eq!(starts, vec![0, 2, 4]);
    assert_eq!(partition.current_offset, 5);
}

#[test]
fn expired_segment_rolls_on_the_next_append() {
    let mut partition = partition(1_000_000, false, Some(10));
    partition.append_messages(vec![payload_message(1, 5)], 0).unwrap();
    assert!(partition.segments[0].is_expired(11_000_000));
    assert!(partition.segments[0].is_full_at(11_000_000));
    assert!(!partition.segments[0].is_full_at(9_000_000));
    partition.append_messages(vec![payload_message(2, 5)], 11_000_000).unwrap();
    assert_eq!(partition.segments.len(), 2);
    assert!(partition.segments[0].is_closed);
    assert_eq!(partition.segments[1].start_offset, 1);
    assert_eq!(partition.segments[1].end_offset, 1);
}

#[test]
fn offsets_and_timestamps_are_assigned_in_order() {
    let mut partition = partition(1000, true, None);
    partition.append_messages(vec![payload_message(1, 1), payload_message(2, 1)], 500).unwrap();
    partition.append_messages(vec![payload_message(3, 1)], 400).unwrap();
    partition.append_messages(vec![payload_message(4, 1)], 600).unwrap();
    let read = partition.get_messages_by_offset(0, 10).unwrap();
    let offsets: Vec<u64> = read.iter().map(|m| m.offset).collect();
    let timestamps: Vec<u64> = read.iter().map(|m| m.timestamp).collect();
    let ids: Vec<u128> = read.iter().map(|m| m.id).collect();
    assert_eq!(offsets, vec![0, 1, 2, 3]);
    assert_eq!(timestamps, vec![500, 500, 500, 600]);
    assert_eq!(ids, vec![1, 2, 3, 4]);
    assert_eq!(partition.newest_timestamp, 600);
}

fn two_full_segments(cache: bool) -> Partition {
    let mut partition = partition(5000, cache, None);
    for id in 0..200 {
        partition.append_messages(vec![payload_message(id, 5)], id as u64).unwrap();
    }
    partition
}

#[test]
fn offset_read_crosses_segment_boundary() {
    let partition = two_full_segments(false);
    assert_eq!(partition.segments.len(), 2);
    assert_eq!(partition.segments[0].start_offset, 0);
    assert_eq!(partition.segments[0].end_offset, 99);
    assert_eq!(partition.segments[1].start_offset, 100);
    assert_eq!(partition.segments[1].end_offset, 199);
    let read = partition.get_messages_by_offset(98, 5).unwrap();
    let offsets: Vec<u64> = read.iter().map(|m| m.offset).collect();
    assert_eq!(offsets, vec![98, 99, 100, 101, 102]);
    let tail = partition.get_messages_by_offset(198, 5).unwrap();
    assert_eq!(tail.len(), 2);
    assert_eq!(
        partition.get_messages_by_offset(200, 1).err(),
        Some(LogError::InvalidOffset)
    );
}

#[test]
fn cached_reads_equal_segment_reads() {
    let cached = two_full_segments(true);
    let plain = two_full_segments(false);
    assert_eq!(cached.cache.as_ref().unwrap().len(), 10);
    assert_eq!(cached.cache.as_ref().unwrap()[0].offset, 190);
    for start in [0u64, 98, 150, 189, 190, 195, 199] {
        let a = cached.get_messages_by_offset(start, 7).unwrap();
        let b = plain.get_messages_by_offset(start, 7).unwrap();
        assert_eq!(a.len(), b.len());
        for (x, y) in a.iter().zip(b.iter()) {
            assert_eq!(x.offset, y.offset);
            assert_eq!(x.timestamp, y.timestamp);
            assert_eq!(x.id, y.id);
            assert_eq!(x.payload, y.payload);
        }
    }
}

#[test]
fn reads_by_timestamp_start_at_the_first_message_not_earlier() {
    let partition = two_full_segments(false);
    assert_eq!(partition.find_offset_by_timestamp(0), 0);
    assert_eq!(partition.find_offset_by_timestamp(99), 99);
    assert_eq!(partition.find_offset_by_timestamp(100), 100);
    assert_eq!(partition.find_offset_by_timestamp(1000), 200);
    let read = partition.get_messages_by_timestamp(99, 3);
    let offsets: Vec<u64> = read.iter().map(|m| m.offset).collect();
    assert_eq!(offsets, vec![99, 100, 101]);
    assert!(partition.get_messages_by_timestamp(1000, 3).is_empty());
}

#[test]
fn consumer_reads_on_from_where_it_stopped() {
    let mut partition = two_full_segments(true);
    let first = partition.get_messages_by_consumer(9, 3);
    assert_eq!(first.iter().map(|m| m.offset).collect::<Vec<u64>>(), vec![0, 1, 2]);
    let other = partition.get_messages_by_consumer(4, 1);
    assert_eq!(other[0].offset, 0);
    let second = partition.get_messages_by_consumer(9, 2);
    assert_eq!(second.iter().map(|m| m.offset).collect::<Vec<u64>>(), vec![3, 4]);
    assert_eq!(partition.consumer_offsets.len(), 2);
    assert_eq!(partition.consumer_offsets[0].consumer_id, 9);
    assert_eq!(partition.consumer_offsets[0].offset, 5);
    assert_eq!(partition.consumer_offsets[1].offset, 1);
}

#[test]
fn retention_deletes_old_sealed_segments_only() {
    let mut partition = two_full_segments(true);
    partition.append_messages(vec![payload_message(999, 5)], 500).unwrap();
    assert_eq!(partition.segments.len(), 3);
    let (none, nothing) = partition.delete_segments_older_than(98);
    assert!(none.is_empty());
    assert_eq!(nothing.size_bytes, 0);
    let (removed, released) = partition.delete_segments_older_than(99);
    assert_eq!(removed.len(), 1);
    assert_eq!(removed[0].start_offset, 0);
    assert_eq!(released.size_bytes, 5000);
    assert_eq!(released.messages_count, 100);
    assert_eq!(partition.counters.size_bytes, 5050);
    assert_eq!(partition.counters.messages_count, 101);
    assert_eq!(partition.segments[0].start_offset, 100);
    assert!(partition.get_messages_by_offset(99, 1).is_err());
    assert_eq!(partition.get_messages_by_offset(100, 1).unwrap()[0].offset, 100);
    let (rest, _) = partition.delete_segments_older_than(u64::MAX);
    assert_eq!(rest.len(), 1);
    assert_eq!(partition.segments.len(), 1);
    assert!(!partition.segments[0].is_closed);
    assert_eq!(partition.counters.messages_count, 1);
    let moved = partition.get_messages_by_consumer(1, 5);
    assert_eq!(moved.len(), 1);
    assert_eq!(moved[0].offset, 200);
}

#[test]
fn purge_resets_the_partition() {
    let mut partition = two_full_segments(true);
    partition.get_messages_by_consumer(1, 5);
    let (removed, released) = partition.purge();
    assert_eq!(removed.len(), 2);
    assert_eq!(released.size_bytes, 10_000);
    assert_eq!(released.messages_count, 200);
    assert_eq!(partition.current_offset, 0);
    assert_eq!(partition.counters.size_bytes, 0);
    assert_eq!(partition.segments.len(), 1);
    assert!(partition.consumer_offsets.is_empty());
    assert!(partition.cache.as_ref().unwrap().is_empty());
    partition.append_messages(vec![payload_message(1, 1)], 3).unwrap();
    assert_eq!(partition.get_messages_by_offset(0, 1).unwrap()[0].timestamp, 3);
}

#[test]
fn flush_changes_nothing_after_an_append() {
    let mut partition = partition(1000, true, None);
    partition.append_messages(vec![payload_message(1, 5); 3], 1).unwrap();
    let growth = partition.flush();
    assert_eq!(growth.size_bytes, 0);
    assert_eq!(growth.messages_count, 0);
    assert_eq!(partition.counters.size_bytes, 150);
    assert_eq!(partition.segments[0].size_bytes, 150);
}

#[test]
fn too_large_message_is_refused_and_changes_nothing() {
    let mut partition = partition(1000, true, None);
    partition.append_messages(vec![payload_message(1, 5)], 1).unwrap();
    let batch = vec![payload_message(2, 5), payload_message(3, 1_000_000_000)];
    assert_eq!(
        partition.append_messages(batch, 2).err(),
        Some(LogError::TooLarge)
    );
    assert_eq!(partition.current_offset, 1);
    assert_eq!(partition.counters.messages_count, 1);
    assert_eq!(
        partition.append_message(payload_message(3, 1_000_000_000), 2).err(),
        Some(LogError::TooLarge)
    );
    assert!(partition.append_message(payload_message(3, 999_999_955), 2).is_ok());
    assert_eq!(partition.segments.len(), 2);
    assert_eq!(partition.segments[1].size_bytes, 1_000_000_000);
}
