use streamlog::index::{
    find_offset_by_timestamp, find_position, read_index_records, read_time_index_records, Index,
    TimeIndex,
};

fn sparse_time_index() -> Vec<TimeIndex> {
    vec![
        TimeIndex { relative_offset: 0, timestamp: 100 },
        TimeIndex { relative_offset: 5, timestamp: 200 },
        TimeIndex { relative_offset: 10, timestamp: 300 },
    ]
}

#[test]
fn timestamp_read_finds_the_first_record_not_earlier() {
    let records = sparse_time_index();
    let start = 1000;
    assert_eq!(find_offset_by_timestamp(&records, start, 1011, 150), start + 5);
}

#[test]
fn timestamp_lookup_edges() {
    let records = sparse_time_index();
    assert_eq!(find_offset_by_timestamp(&records, 1000, 1011, 0), 1000);
    assert_eq!(find_offset_by_timestamp(&records, 1000, 1011, 100), 1000);
    assert_eq!(find_offset_by_timestamp(&records, 1000, 1011, 101), 1005);
    assert_eq!(find_offset_by_timestamp(&records, 1000, 1011, 200), 1005);
    assert_eq!(find_offset_by_timestamp(&records, 1000, 1011, 300), 1010);
    assert_eq!(find_offset_by_timestamp(&records, 1000, 1011, 301), 1011);
    assert_eq!(find_offset_by_timestamp(&[], 1000, 1011, 5), 1011);
}

#[test]
fn position_lookup_uses_exact_record_or_the_one_before() {
    let records = vec![
        Index { relative_offset: 2, position: 90 },
        Index { relative_offset: 4, position: 200 },
        Index { relative_offset: 9, position: 515 },
    ];
    assert_eq!(find_position(&records, 0), 0);
    assert_eq!(find_position(&records, 1), 0);
    assert_eq!(find_position(&records, 2), 90);
    assert_eq!(find_position(&records, 3), 90);
    assert_eq!(find_position(&records, 4), 200);
    assert_eq!(find_position(&records, 8), 200);
    assert_eq!(find_position(&records, 9), 515);
    assert_eq!(find_position(&records, u32::MAX), 515);
    assert_eq!(find_position(&[], 7), 0);
}

#[test]
fn index_records_are_fixed_width_little_endian() {
    let mut bytes = Vec::new();
    Index { relative_offset: 1, position: 0x0102_0304 }.encode_into(&mut bytes);
    assert_eq!(bytes, vec![1, 0, 0, 0, 4, 3, 2, 1]);
    Index { relative_offset: 2, position: 7 }.encode_into(&mut bytes);
    bytes.extend_from_slice(&[9, 9, 9]);
    let records = read_index_records(&bytes);
    assert_eq!(
        records,
        vec![
            Index { relative_offset: 1, position: 0x0102_0304 },
            Index { relative_offset: 2, position: 7 }
        ]
    );
}

#[test]
fn time_index_records_are_fixed_width_little_endian() {
    let mut bytes = Vec::new();
    TimeIndex { relative_offset: 3, timestamp: 0x0102_0304_0506_0708 }.encode_into(&mut bytes);
    assert_eq!(bytes, vec![3, 0, 0, 0, 8, 7, 6, 5, 4, 3, 2, 1]);
    let records = read_time_index_records(&bytes);
    assert_eq!(records, vec![TimeIndex { relative_offset: 3, timestamp: 0x0102_0304_0506_0708 }]);
    assert!(read_time_index_records(&bytes[..11]).is_empty());
}
