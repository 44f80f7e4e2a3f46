use streamlog::configs::{push_decimal, SegmentConfig, SystemConfig, MAX_SIZE_BYTES};
use streamlog::connection::{next_action, read_frame, ConnectionAction, ConnectionEvent};
use streamlog::error::LogError;

#[test]
fn default_configuration_is_valid() {
    let config = SystemConfig::default();
    assert_eq!(config.path, "local_data");
    assert_eq!(config.segment.size, 1_000_000_000);
    assert_eq!(MAX_SIZE_BYTES, 1_000_000_000);
    assert!(config.segment.cache_indexes);
    assert!(config.segment.cache_time_indexes);
    assert_eq!(config.segment.message_expiry, 0);
    assert!(config.cache.enabled);
    assert_eq!(config.retention.max_topic_size, 0);
    assert_eq!(config.validate(), Ok(()));
    assert_eq!(config.message_expiry(), None);
}

#[test]
fn configuration_is_validated() {
    let zero = SystemConfig {
        segment: SegmentConfig { size: 0, ..Default::default() },
        ..Default::default()
    };
    assert_eq!(zero.validate(), Err(LogError::ConfigError));
    let huge = SystemConfig {
        segment: SegmentConfig { size: 1_000_000_001, message_expiry: 5, ..Default::default() },
        ..Default::default()
    };
    assert_eq!(huge.validate(), Err(LogError::ConfigError));
    assert_eq!(huge.message_expiry(), Some(5));
}

#[test]
fn segment_path_is_built_from_ids_in_decimal() {
    let config = SystemConfig { path: "base".to_string(), ..Default::default() };
    assert_eq!(
        config.get_segment_path(1, 20, 300, 0),
        "base/streams/1/topics/20/partitions/300/segments/0"
    );
    assert_eq!(
        config.get_segment_path(u32::MAX, 0, 7, u64::MAX),
        "base/streams/4294967295/topics/0/partitions/7/segments/18446744073709551615"
    );
}

#[test]
fn decimal_has_no_leading_zeros() {
    for n in [0u64, 9, 10, 99, 100, 1234567890, u64::MAX] {
        let mut text = String::from("x");
        push_decimal(&mut text, n);
        assert_eq!(text, format!("x{}", n));
    }
}

#[test]
fn error_names() {
    assert_eq!(LogError::NotFound.name(), "not found");
    assert_eq!(LogError::SegmentClosed.name(), "segment closed");
    assert_eq!(LogError::InvalidRequest.name(), "invalid request");
}

#[test]
fn frame_needs_a_matching_length_prefix() {
    assert_eq!(read_frame(&[3, 0, 0, 0, 7, 8, 9]), Ok(vec![7, 8, 9]));
    assert_eq!(read_frame(&[0, 0, 0, 0]), Ok(vec![]));
    assert_eq!(read_frame(&[1, 0, 0]), Err(LogError::InvalidRequest));
    assert_eq!(read_frame(&[]), Err(LogError::InvalidRequest));
    assert_eq!(read_frame(&[2, 0, 0, 0, 7, 8, 9]), Err(LogError::InvalidRequest));
    assert_eq!(read_frame(&[4, 0, 0, 0, 7, 8, 9]), Err(LogError::InvalidRequest));
    assert_eq!(read_frame(&[3, 1, 0, 0, 7, 8, 9]), Err(LogError::InvalidRequest));
}

#[test]
fn connection_goes_on_after_a_bad_request() {
    assert!(matches!(next_action(ConnectionEvent::Connected), ConnectionAction::Register));
    assert!(matches!(next_action(ConnectionEvent::StreamAccepted), ConnectionAction::Read));
    assert!(matches!(next_action(ConnectionEvent::ClosedByClient), ConnectionAction::Finish));
    assert!(matches!(next_action(ConnectionEvent::ConnectionLost), ConnectionAction::Fail));
    assert!(matches!(next_action(ConnectionEvent::RequestFailed), ConnectionAction::Accept));
    assert!(matches!(next_action(ConnectionEvent::CommandDecoded), ConnectionAction::Handle));
    assert!(matches!(next_action(ConnectionEvent::CommandRejected), ConnectionAction::Accept));
    assert!(matches!(next_action(ConnectionEvent::CommandHandled), ConnectionAction::Accept));
    assert!(matches!(next_action(ConnectionEvent::HandlerFailed), ConnectionAction::Accept));
    match next_action(ConnectionEvent::RequestRead(vec![2, 0, 0, 0, 5, 6])) {
        ConnectionAction::Decode(body) => assert_eq!(body, vec![5, 6]),
        other => panic!("unexpected action: {:?}", other),
    }
    assert!(matches!(
        next_action(ConnectionEvent::RequestRead(vec![2, 0, 0])),
        ConnectionAction::Accept
    ));
    assert!(matches!(
        next_action(ConnectionEvent::RequestRead(vec![9, 0, 0, 0, 5, 6])),
        ConnectionAction::Accept
    ));
}
