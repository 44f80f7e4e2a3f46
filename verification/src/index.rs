//! The two sidecar indexes of a segment.
//!
//! Both are append-only files of fixed-width records. An offset-index record
//! maps a message's offset, relative to the segment's first, to the position
//! of its record in the log; a time-index record maps it to the message's
//! timestamp.

use vstd::bytes::*;
use vstd::prelude::*;
use crate::wire::{put_u32, put_u64, read_u32, read_u64, u32_at, u64_at};

verus! {

/// Width of an offset-index record.
pub const INDEX_RECORD_BYTES: usize = 8;

/// Width of a time-index record.
pub const TIME_INDEX_RECORD_BYTES: usize = 12;

/// A record of the offset index: `relative_offset:u32 | position:u32`.
#[derive(Clone, Copy, PartialEq, Eq, Debug, Structural)]
pub struct Index {
    pub relative_offset: u32,
    pub position: u32,
}

/// A record of the time index: `relative_offset:u32 | timestamp:u64`.
#[derive(Clone, Copy, PartialEq, Eq, Debug, Structural)]
pub struct TimeIndex {
    pub relative_offset: u32,
    pub timestamp: u64,
}

impl Index {
    /// The record's eight bytes.
    pub open spec fn encoded(self) -> Seq<u8> {
        spec_u32_to_le_bytes(self.relative_offset) + spec_u32_to_le_bytes(self.position)
    }

    /// The `k`-th record of an index file.
    pub open spec fn at(bytes: Seq<u8>, k: int) -> Index {
        Index { relative_offset: u32_at(bytes, 8 * k), position: u32_at(bytes, 8 * k + 4) }
    }

    /// Appends the record to `buf`.
    pub fn encode_into(&self, buf: &mut Vec<u8>)
        ensures
            final(buf)@ == old(buf)@ + self.encoded(),
    {
        put_u32(buf, self.relative_offset);
        put_u32(buf, self.position);
        assert(buf@ =~= old(buf)@ + self.encoded());
    }
}

impl TimeIndex {
    /// The record's twelve bytes.
    pub open spec fn encoded(self) -> Seq<u8> {
        spec_u32_to_le_bytes(self.relative_offset) + spec_u64_to_le_bytes(self.timestamp)
    }

    /// The `k`-th record of a time-index file.
    pub open spec fn at(bytes: Seq<u8>, k: int) -> TimeIndex {
        TimeIndex { relative_offset: u32_at(bytes, 12 * k), timestamp: u64_at(bytes, 12 * k + 4) }
    }

    /// Appends the record to `buf`.
    pub fn encode_into(&self, buf: &mut Vec<u8>)
        ensures
            final(buf)@ == old(buf)@ + self.encoded(),
    {
        put_u32(buf, self.relative_offset);
        put_u64(buf, self.timestamp);
        assert(buf@ =~= old(buf)@ + self.encoded());
    }
}

/// The whole records of an index file, in file order. Bytes behind the last
/// whole record belong to none.
pub open spec fn index_records(bytes: Seq<u8>) -> Seq<Index> {
    Seq::new((bytes.len() / 8) as nat, |k: int| Index::at(bytes, k))
}

/// The whole records of a time-index file, in file order.
pub open spec fn time_index_records(bytes: Seq<u8>) -> Seq<TimeIndex> {
    Seq::new((bytes.len() / 12) as nat, |k: int| TimeIndex::at(bytes, k))
}

/// Relative offsets grow strictly along `records`.
pub open spec fn offsets_increase(records: Seq<Index>) -> bool {
    forall|i: int, j: int|
        0 <= i < j < records.len() ==> records[i].relative_offset < records[j].relative_offset
}

/// Timestamps never fall along `records`.
pub open spec fn timestamps_ordered(records: Seq<TimeIndex>) -> bool {
    forall|i: int, j: int| 0 <= i <= j < records.len() ==> records[i].timestamp <= records[j].timestamp
}

/// A record written behind whole records is the next record of the file.
pub proof fn lemma_index_records_push(bytes: Seq<u8>, record: Index)
    requires
        bytes.len() % 8 == 0,
    ensures
        index_records(bytes + record.encoded()) == index_records(bytes).push(record),
{
    lemma_auto_spec_u32_to_from_le_bytes();
    let all = bytes + record.encoded();
    let n = (bytes.len() / 8) as int;
    assert(all.len() == bytes.len() + 8);
    assert forall|k: int| 0 <= k < n + 1 implies Index::at(all, k) == index_records(bytes).push(
        record,
    )[k] by {
        if k < n {
            assert(all.subrange(8 * k, 8 * k + 4) =~= bytes.subrange(8 * k, 8 * k + 4));
            assert(all.subrange(8 * k + 4, 8 * k + 8) =~= bytes.subrange(8 * k + 4, 8 * k + 8));
        } else {
            assert(all.subrange(8 * k, 8 * k + 4) =~= spec_u32_to_le_bytes(record.relative_offset));
            assert(all.subrange(8 * k + 4, 8 * k + 8) =~= spec_u32_to_le_bytes(record.position));
        }
    }
    assert(index_records(all) =~= index_records(bytes).push(record));
}

/// A record written behind whole records is the next record of the file.
pub proof fn lemma_time_index_records_push(bytes: Seq<u8>, record: TimeIndex)
    requires
        bytes.len() % 12 == 0,
    ensures
        time_index_records(bytes + record.encoded()) == time_index_records(bytes).push(record),
{
    lemma_auto_spec_u32_to_from_le_bytes();
    lemma_auto_spec_u64_to_from_le_bytes();
    let all = bytes + record.encoded();
    let n = (bytes.len() / 12) as int;
    assert(all.len() == bytes.len() + 12);
    assert forall|k: int| 0 <= k < n + 1 implies TimeIndex::at(all, k) == time_index_records(
        bytes,
    ).push(record)[k] by {
        if k < n {
            assert(all.subrange(12 * k, 12 * k + 4) =~= bytes.subrange(12 * k, 12 * k + 4));
            assert(all.subrange(12 * k + 4, 12 * k + 12) =~= bytes.subrange(
                12 * k + 4,
                12 * k + 12,
            ));
        } else {
            assert(all.subrange(12 * k, 12 * k + 4) =~= spec_u32_to_le_bytes(
                record.relative_offset,
            ));
            assert(all.subrange(12 * k + 4, 12 * k + 12) =~= spec_u64_to_le_bytes(
                record.timestamp,
            ));
        }
    }
    assert(time_index_records(all) =~= time_index_records(bytes).push(record));
}

/// The first `n` records of a file are the records of its first `8 * n` bytes.
pub proof fn lemma_index_records_prefix(bytes: Seq<u8>, n: int)
    requires
        0 <= n <= index_records(bytes).len(),
    ensures
        index_records(bytes.subrange(0, 8 * n)) == index_records(bytes).take(n),
{
    let head = bytes.subrange(0, 8 * n);
    assert forall|k: int| 0 <= k < n implies Index::at(head, k) == Index::at(bytes, k) by {
        assert(head.subrange(8 * k, 8 * k + 4) =~= bytes.subrange(8 * k, 8 * k + 4));
        assert(head.subrange(8 * k + 4, 8 * k + 8) =~= bytes.subrange(8 * k + 4, 8 * k + 8));
    }
    assert(index_records(head) =~= index_records(bytes).take(n));
}

/// The first `n` records of a file are the records of its first `12 * n` bytes.
pub proof fn lemma_time_index_records_prefix(bytes: Seq<u8>, n: int)
    requires
        0 <= n <= time_index_records(bytes).len(),
    ensures
        time_index_records(bytes.subrange(0, 12 * n)) == time_index_records(bytes).take(n),
{
    let head = bytes.subrange(0, 12 * n);
    assert forall|k: int| 0 <= k < n implies TimeIndex::at(head, k) == TimeIndex::at(bytes, k) by {
        assert(head.subrange(12 * k, 12 * k + 4) =~= bytes.subrange(12 * k, 12 * k + 4));
        assert(head.subrange(12 * k + 4, 12 * k + 12) =~= bytes.subrange(12 * k + 4, 12 * k + 12));
    }
    assert(time_index_records(head) =~= time_index_records(bytes).take(n));
}

/// Reads every whole record of an index file.
pub fn read_index_records(bytes: &[u8]) -> (records: Vec<Index>)
    ensures
        records@ == index_records(bytes@),
{
    let len = bytes.len();
    let count = len / 8;
    let mut records: Vec<Index> = Vec::new();
    let mut k: usize = 0;
    while k < count
        invariant
            len == bytes@.len(),
            count == len / 8,
            k <= count,
            records@.len() == k,
            forall|i: int| 0 <= i < k ==> records@[i] == Index::at(bytes@, i),
        decreases count - k,
    {
        let record = Index {
            relative_offset: read_u32(bytes, 8 * k),
            position: read_u32(bytes, 8 * k + 4),
        };
        records.push(record);
        k += 1;
    }
    assert(records@ =~= index_records(bytes@));
    records
}

/// Reads every whole record of a time-index file.
pub fn read_time_index_records(bytes: &[u8]) -> (records: Vec<TimeIndex>)
    ensures
        records@ == time_index_records(bytes@),
{
    let len = bytes.len();
    let count = len / 12;
    let mut records: Vec<TimeIndex> = Vec::new();
    let mut k: usize = 0;
    while k < count
        invariant
            len == bytes@.len(),
            count == len / 12,
            k <= count,
            records@.len() == k,
            forall|i: int| 0 <= i < k ==> records@[i] == TimeIndex::at(bytes@, i),
        decreases count - k,
    {
        let record = TimeIndex {
            relative_offset: read_u32(bytes, 12 * k),
            timestamp: read_u64(bytes, 12 * k + 4),
        };
        records.push(record);
        k += 1;
    }
    assert(records@ =~= time_index_records(bytes@));
    records
}

/// How many records of a sorted offset index are at or before `target`:
/// they are its first ones.
pub open spec fn covering(records: Seq<Index>, target: u32) -> int
    decreases records.len(),
{
    if records.len() == 0 || records.last().relative_offset <= target {
        records.len() as int
    } else {
        covering(records.drop_last(), target)
    }
}

/// The log position from which a forward scan reaches the message at
/// `target`: the position of the last record at or before it, which is the
/// record with that offset where there is one; the start of the log where
/// no record is at or before it.
pub open spec fn position_for(records: Seq<Index>, target: u32) -> u32 {
    let count = covering(records, target);
    if count == 0 {
        0
    } else {
        records[count - 1].position
    }
}

/// How many records of a sorted time index are earlier than `timestamp`:
/// they are its first ones.
pub open spec fn earlier(records: Seq<TimeIndex>, timestamp: u64) -> int
    decreases records.len(),
{
    if records.len() == 0 || records.last().timestamp < timestamp {
        records.len() as int
    } else {
        earlier(records.drop_last(), timestamp)
    }
}

/// A cut of a sorted offset index with the records at or before `target`
/// on its left and the others on its right is where `covering` says.
pub proof fn lemma_covering(records: Seq<Index>, target: u32, cut: int)
    requires
        0 <= cut <= records.len(),
        forall|i: int| 0 <= i < cut ==> (#[trigger] records[i]).relative_offset <= target,
        forall|i: int| cut <= i < records.len() ==> (#[trigger] records[i]).relative_offset > target,
    ensures
        covering(records, target) == cut,
    decreases records.len(),
{
    if records.len() > cut {
        let front = records.drop_last();
        assert(records.last() == records[records.len() - 1]);
        assert forall|i: int| 0 <= i < cut implies (#[trigger] front[i]).relative_offset
            <= target by {
            assert(front[i] == records[i]);
        }
        assert forall|i: int| cut <= i < front.len() implies (#[trigger] front[i]).relative_offset
            > target by {
            assert(front[i] == records[i]);
        }
        lemma_covering(front, target, cut);
    } else if records.len() > 0 {
        assert(records.last() == records[cut - 1]);
    }
}

/// A cut of a sorted time index with the records earlier than `timestamp`
/// on its left and the others on its right is where `earlier` says.
pub proof fn lemma_earlier(records: Seq<TimeIndex>, timestamp: u64, cut: int)
    requires
        0 <= cut <= records.len(),
        forall|i: int| 0 <= i < cut ==> (#[trigger] records[i]).timestamp < timestamp,
        forall|i: int| cut <= i < records.len() ==> (#[trigger] records[i]).timestamp >= timestamp,
    ensures
        earlier(records, timestamp) == cut,
    decreases records.len(),
{
    if records.len() > cut {
        let front = records.drop_last();
        assert(records.last() == records[records.len() - 1]);
        assert forall|i: int| 0 <= i < cut implies (#[trigger] front[i]).timestamp < timestamp by {
            assert(front[i] == records[i]);
        }
        assert forall|i: int| cut <= i < front.len() implies (#[trigger] front[i]).timestamp
            >= timestamp by {
            assert(front[i] == records[i]);
        }
        lemma_earlier(front, timestamp, cut);
    } else if records.len() > 0 {
        assert(records.last() == records[cut - 1]);
    }
}

/// In a sorted time index, the records that `earlier` counts are earlier
/// than `timestamp`, and the record behind them, if any, is not.
pub proof fn lemma_earlier_cuts(records: Seq<TimeIndex>, timestamp: u64)
    requires
        timestamps_ordered(records),
    ensures
        0 <= earlier(records, timestamp) <= records.len(),
        forall|k: int|
            0 <= k < earlier(records, timestamp) ==> (#[trigger] records[k]).timestamp < timestamp,
        forall|k: int|
            earlier(records, timestamp) <= k < records.len() ==> (#[trigger] records[k]).timestamp
                >= timestamp,
    decreases records.len(),
{
    if records.len() == 0 {
    } else if records.last().timestamp < timestamp {
        assert forall|k: int| 0 <= k < records.len() implies (#[trigger] records[k]).timestamp
            < timestamp by {
            assert(records[k].timestamp <= records[records.len() - 1].timestamp);
        }
    } else {
        let front = records.drop_last();
        assert forall|i: int, j: int| 0 <= i <= j < front.len() implies front[i].timestamp
            <= front[j].timestamp by {
            assert(records[i].timestamp <= records[j].timestamp);
        }
        lemma_earlier_cuts(front, timestamp);
        assert forall|k: int| 0 <= k < earlier(records, timestamp) implies (
        #[trigger] records[k]).timestamp < timestamp by {
            assert(front[k] == records[k]);
        }
        assert forall|k: int| earlier(records, timestamp) <= k < records.len() implies (
        #[trigger] records[k]).timestamp >= timestamp by {
            if k < front.len() {
                assert(front[k] == records[k]);
            }
        }
    }
}

/// Looks up, by bisection of the sorted offset index, the log position from
/// which a forward scan reaches the message at `relative_offset`.
pub fn find_position(records: &[Index], relative_offset: u32) -> (position: u32)
    requires
        offsets_increase(records@),
    ensures
        position == position_for(records@, relative_offset),
{
    let mut low: usize = 0;
    let mut high: usize = records.len();
    while low < high
        invariant
            low <= high <= records@.len(),
            offsets_increase(records@),
            forall|i: int| 0 <= i < low ==> (#[trigger] records@[i]).relative_offset <= relative_offset,
            forall|i: int|
                high <= i < records@.len() ==> (#[trigger] records@[i]).relative_offset
                    > relative_offset,
        decreases high - low,
    {
        let middle = low + (high - low) / 2;
        if records[middle].relative_offset <= relative_offset {
            assert forall|i: int| 0 <= i < middle + 1 implies (
            #[trigger] records@[i]).relative_offset <= relative_offset by {
                if i < middle {
                    assert(records@[i].relative_offset < records@[middle as int].relative_offset);
                }
            }
            low = middle + 1;
        } else {
            assert forall|i: int| middle <= i < records@.len() implies (
            #[trigger] records@[i]).relative_offset > relative_offset by {
                if i > middle {
                    assert(records@[middle as int].relative_offset < records@[i].relative_offset);
                }
            }
            high = middle;
        }
    }
    proof {
        lemma_covering(records@, relative_offset, low as int);
    }
    if low == 0 {
        0
    } else {
        records[low - 1].position
    }
}

/// Looks up, by bisection of the sorted time index, the offset of the first
/// message whose timestamp is `timestamp` or later: the offset of the first
/// record that is not earlier, or `end_offset` where every record is
/// earlier.
pub fn find_offset_by_timestamp(
    records: &[TimeIndex],
    start_offset: u64,
    end_offset: u64,
    timestamp: u64,
) -> (offset: u64)
    requires
        timestamps_ordered(records@),
        forall|i: int|
            0 <= i < records@.len() ==> start_offset + (#[trigger] records@[i]).relative_offset
                <= u64::MAX,
    ensures
        offset == (if earlier(records@, timestamp) == records@.len() {
            end_offset
        } else {
            (start_offset + records@[earlier(records@, timestamp)].relative_offset) as u64
        }),
{
    let mut low: usize = 0;
    let mut high: usize = records.len();
    while low < high
        invariant
            low <= high <= records@.len(),
            timestamps_ordered(records@),
            forall|i: int| 0 <= i < low ==> (#[trigger] records@[i]).timestamp < timestamp,
            forall|i: int| high <= i < records@.len() ==> (#[trigger] records@[i]).timestamp >= timestamp,
        decreases high - low,
    {
        let middle = low + (high - low) / 2;
        if records[middle].timestamp < timestamp {
            assert forall|i: int| 0 <= i < middle + 1 implies (#[trigger] records@[i]).timestamp
                < timestamp by {
                assert(records@[i].timestamp <= records@[middle as int].timestamp);
            }
            low = middle + 1;
        } else {
            assert forall|i: int| middle <= i < records@.len() implies (
            #[trigger] records@[i]).timestamp >= timestamp by {
                assert(records@[middle as int].timestamp <= records@[i].timestamp);
            }
            high = middle;
        }
    }
    proof {
        lemma_earlier(records@, timestamp, low as int);
    }
    if low == records.len() {
        end_offset
    } else {
        start_offset + records[low].relative_offset as u64
    }
}

} // verus!
