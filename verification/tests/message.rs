use streamlog::message::{Message, MessageState};
use streamlog::wire::{put_u128, put_u32, put_u64, read_u128, read_u32, read_u64};

fn sample() -> Message {
    Message {
        offset: 0x0102,
        state: MessageState::Poisoned,
        timestamp: 0x0A0B,
        id: 0x1122_3344_5566_7788_99AA_BBCC_DDEE_FF00,
        checksum: 0xDEAD_BEEF,
        headers: vec![7, 8],
        payload: vec![1, 2, 3],
    }
}

#[test]
fn message_record_follows_the_layout() {
    let mut bytes = vec![0xEE];
    sample().encode_into(&mut bytes);
    let mut expected = vec![0xEE];
    expected.extend_from_slice(&0x0102u64.to_le_bytes());
    expected.push(20);
    expected.extend_from_slice(&0x0A0Bu64.to_le_bytes());
    expected.extend_from_slice(&0x1122_3344_5566_7788_99AA_BBCC_DDEE_FF00u128.to_le_bytes());
    expected.extend_from_slice(&0xDEAD_BEEFu32.to_le_bytes());
    expected.extend_from_slice(&2u32.to_le_bytes());
    expected.extend_from_slice(&[7, 8]);
    expected.extend_from_slice(&3u32.to_le_bytes());
    expected.extend_from_slice(&[1, 2, 3]);
    assert_eq!(bytes, expected);
    assert_eq!(sample().size_bytes(), Some(50));
    assert_eq!(bytes.len(), 51);
}

#[test]
fn message_decodes_where_it_was_written() {
    let mut bytes = vec![1, 2, 3];
    sample().encode_into(&mut bytes);
    bytes.extend_from_slice(&[4, 5]);
    let (message, end) = Message::decode(&bytes, 3).unwrap();
    assert_eq!(end, 53);
    assert_eq!(message.offset, 0x0102);
    assert_eq!(message.state, MessageState::Poisoned);
    assert_eq!(message.timestamp, 0x0A0B);
    assert_eq!(message.id, 0x1122_3344_5566_7788_99AA_BBCC_DDEE_FF00);
    assert_eq!(message.checksum, 0xDEAD_BEEF);
    assert_eq!(message.headers, vec![7, 8]);
    assert_eq!(message.payload, vec![1, 2, 3]);
}

#[test]
fn truncated_or_unknown_records_do_not_decode() {
    let mut bytes = Vec::new();
    sample().encode_into(&mut bytes);
    assert!(Message::decode(&bytes[..49], 0).is_none());
    assert!(Message::decode(&bytes[..44], 0).is_none());
    assert!(Message::decode(&bytes, 1).is_none());
    assert!(Message::decode(&bytes, 51).is_none());
    let mut unknown = bytes.clone();
    unknown[8] = 2;
    assert!(Message::decode(&unknown, 0).is_none());
    assert!(Message::decode(&bytes, 0).is_some());
}

#[test]
fn message_states_have_their_codes() {
    for (state, code) in [
        (MessageState::Available, 1u8),
        (MessageState::Unavailable, 10),
        (MessageState::Poisoned, 20),
        (MessageState::MarkedForDeletion, 30),
    ] {
        assert_eq!(state.as_code(), code);
        assert_eq!(MessageState::from_code(code), Some(state));
    }
    assert_eq!(MessageState::from_code(0), None);
    assert_eq!(MessageState::from_code(31), None);
}

#[test]
fn new_message_is_available_and_unplaced() {
    let message = Message::new(9, 3, vec![1], vec![2, 3]);
    assert_eq!(message.offset, 0);
    assert_eq!(message.timestamp, 0);
    assert_eq!(message.state, MessageState::Available);
    assert_eq!(message.id, 9);
    assert_eq!(message.checksum, 3);
    let copy = message.clone();
    assert_eq!(copy.headers, vec![1]);
    assert_eq!(copy.payload, vec![2, 3]);
}

#[test]
fn integers_are_little_endian() {
    let mut bytes = Vec::new();
    put_u32(&mut bytes, 0x0102_0304);
    put_u64(&mut bytes, 5);
    put_u128(&mut bytes, 1u128 << 120);
    assert_eq!(&bytes[..4], &[4, 3, 2, 1]);
    assert_eq!(bytes.len(), 28);
    assert_eq!(bytes[27], 1);
    assert_eq!(read_u32(&bytes, 0), 0x0102_0304);
    assert_eq!(read_u64(&bytes, 4), 5);
    assert_eq!(read_u128(&bytes, 12), 1u128 << 120);
}
