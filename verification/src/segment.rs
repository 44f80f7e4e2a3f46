//! A segment: an append-only log file with its offset index and time index.
//!
//! Messages are first buffered, then persisted: only persisting writes the
//! three files and moves the segment's offsets and size. The files are held
//! as byte buffers; whoever owns the segment mirrors them to disk under the
//! segment's three paths.

use std::sync::Arc;
use vstd::prelude::*;
use vstd::string::StringExecFns;
use crate::chain::SegmentModel;
use crate::clock::now_micros;
use crate::configs::{segment_path, SystemConfig, MAX_SIZE_BYTES};
use crate::error::LogError;
use crate::index::{
    earlier, find_offset_by_timestamp, find_position, index_records, lemma_covering,
    lemma_earlier_cuts, lemma_index_records_prefix, lemma_index_records_push,
    lemma_time_index_records_prefix, lemma_time_index_records_push, read_index_records,
    read_time_index_records, time_index_records, timestamps_ordered, Index, TimeIndex,
};
use crate::log::{
    all_encodable, dense_index, dense_time_index, lemma_concat_continues, lemma_decode_in_log,
    lemma_dense_index_increases, lemma_dense_push, lemma_log_bytes_concat, lemma_log_bytes_len,
    lemma_log_bytes_push, lemma_log_bytes_split, lemma_position_step, lemma_rise, lemma_rise_push,
    log_bytes, offsets_from, position, timestamps_rise,
};
use crate::message::{decode_at, lemma_decoded_record, Message, MessageView};
use crate::wire::{read_u32, read_u64};

verus! {

pub const LOG_EXTENSION: &'static str = "log";

pub const INDEX_EXTENSION: &'static str = "index";

pub const TIME_INDEX_EXTENSION: &'static str = "timeindex";

/// The three files of a segment.
#[derive(Debug)]
pub struct SegmentStorage {
    pub log: Vec<u8>,
    pub index: Vec<u8>,
    pub time_index: Vec<u8>,
}

/// The three files as byte sequences.
pub struct StorageView {
    pub log: Seq<u8>,
    pub index: Seq<u8>,
    pub time_index: Seq<u8>,
}

impl View for SegmentStorage {
    type V = StorageView;

    open spec fn view(&self) -> StorageView {
        StorageView { log: self.log@, index: self.index@, time_index: self.time_index@ }
    }
}

/// The files of one segment of a partition, as read from disk.
#[derive(Debug)]
pub struct SegmentFiles {
    /// The first offset of the segment, which its files are named after.
    pub start_offset: u64,
    pub storage: SegmentStorage,
}

/// Bytes and messages that a persist added, or that a deletion took away.
#[derive(Clone, Copy, PartialEq, Eq, Debug, Structural)]
pub struct Counters {
    pub size_bytes: u64,
    pub messages_count: u64,
}

pub struct Segment {
    pub stream_id: u32,
    pub topic_id: u32,
    pub partition_id: u32,
    pub start_offset: u64,
    /// Offset of the last persisted message; 0 while there is none.
    pub end_offset: u64,
    /// Offset that the next persisted message takes.
    pub current_offset: u64,
    pub index_path: String,
    pub log_path: String,
    pub time_index_path: String,
    /// Length of the log file.
    pub size_bytes: u32,
    /// Length that the buffered messages will add to the log file.
    pub unsaved_bytes: u32,
    pub is_closed: bool,
    /// Seconds that a message lives; `None` for ever.
    pub message_expiry: Option<u32>,
    pub unsaved_messages: Option<Vec<Message>>,
    pub config: Arc<SystemConfig>,
    pub indexes: Option<Vec<Index>>,
    pub time_indexes: Option<Vec<TimeIndex>>,
    pub storage: SegmentStorage,
    /// The messages that the log file holds.
    pub persisted: Ghost<Seq<MessageView>>,
}

/// The three files hold exactly `messages`: the log their records, each
/// index one record for each of them.
pub open spec fn files_hold(storage: StorageView, messages: Seq<MessageView>) -> bool {
    &&& storage.log == log_bytes(messages)
    &&& storage.index.len() == 8 * messages.len()
    &&& index_records(storage.index) == dense_index(messages)
    &&& storage.time_index.len() == 12 * messages.len()
    &&& time_index_records(storage.time_index) == dense_time_index(messages)
}

/// The views of buffered messages.
pub open spec fn views(messages: Seq<Message>) -> Seq<MessageView> {
    Seq::new(messages.len(), |i: int| messages[i]@)
}

/// The path of a segment's file: its stem, a dot, and the extension.
pub open spec fn file_path(stem: Seq<char>, extension: Seq<char>) -> Seq<char> {
    stem + "."@ + extension
}

/// Whether `files` hold, behind the records of `held`, the records of one
/// more message that continues them: a whole log record with the next
/// offset and a timestamp that does not fall, ending below
/// `MAX_SIZE_BYTES`, and the record for it in each index.
pub open spec fn record_follows(
    files: StorageView,
    start_offset: u64,
    held: Seq<MessageView>,
) -> bool {
    let n = held.len() as int;
    let at = log_bytes(held).len() as int;
    match decode_at(files.log, at) {
        None => false,
        Some((m, end)) => {
            &&& m.offset == start_offset + n
            &&& m.offset < u64::MAX
            &&& (n == 0 || held.last().timestamp <= m.timestamp)
            &&& end <= MAX_SIZE_BYTES
            &&& 8 * (n + 1) <= files.index.len()
            &&& Index::at(files.index, n) == Index {
                relative_offset: n as u32,
                position: at as u32,
            }
            &&& 12 * (n + 1) <= files.time_index.len()
            &&& TimeIndex::at(files.time_index, n) == TimeIndex {
                relative_offset: n as u32,
                timestamp: m.timestamp,
            }
        },
    }
}

/// The messages that a load takes from `files` behind `held`: `held`, then
/// one message for as long as its records follow.
pub open spec fn scan(files: StorageView, start_offset: u64, held: Seq<MessageView>) -> Seq<
    MessageView,
>
    decreases files.log.len() - log_bytes(held).len(),
{
    if record_follows(files, start_offset, held) {
        let next = decode_at(files.log, log_bytes(held).len() as int).unwrap();
        let m = next.0;
        proof {
            lemma_decoded_record(files.log, log_bytes(held).len() as int);
            lemma_log_bytes_push(held, m);
        }
        scan(files, start_offset, held.push(m))
    } else {
        held
    }
}

/// The messages that a segment which starts at `start_offset` takes from
/// `files`: the longest run of messages on which the log and both indexes
/// agree.
pub open spec fn loaded(files: StorageView, start_offset: u64) -> Seq<MessageView> {
    scan(files, start_offset, Seq::empty())
}

impl Segment {
    /// The persisted messages, oldest first.
    pub open spec fn messages(&self) -> Seq<MessageView> {
        self.persisted@
    }

    /// The buffered messages, oldest first.
    pub open spec fn pending(&self) -> Seq<MessageView> {
        match self.unsaved_messages {
            Some(buffer) => views(buffer@),
            None => Seq::empty(),
        }
    }

    /// What a partition's rules read of the segment.
    pub open spec fn model(&self) -> SegmentModel {
        SegmentModel {
            start_offset: self.start_offset,
            messages: self.messages(),
            is_closed: self.is_closed,
        }
    }

    /// The segment's invariant.
    #[verifier::opaque]
    pub open spec fn wf(&self) -> bool {
        let persisted = self.messages();
        let all = persisted + self.pending();
        &&& files_hold(self.storage@, persisted)
        &&& self.indexes is Some <==> self.config.segment.cache_indexes
        &&& self.time_indexes is Some <==> self.config.segment.cache_time_indexes
        &&& self.indexes matches Some(cache) ==> cache@ == dense_index(persisted)
        &&& self.time_indexes matches Some(cache) ==> cache@ == dense_time_index(persisted)
        &&& self.size_bytes == log_bytes(persisted).len()
        &&& self.unsaved_bytes == log_bytes(self.pending()).len()
        &&& self.size_bytes + self.unsaved_bytes <= MAX_SIZE_BYTES
        &&& self.current_offset == self.start_offset + persisted.len()
        &&& self.start_offset + all.len() <= u64::MAX
        &&& self.end_offset == (if persisted.len() == 0 {
            0
        } else {
            self.current_offset - 1
        })
        &&& all_encodable(all)
        &&& offsets_from(all, self.start_offset as int)
        &&& timestamps_rise(all)
        &&& self.is_closed ==> self.pending().len() == 0
    }

    /// What a partition knows of a well-formed segment.
    pub proof fn lemma_wf(&self)
        requires
            self.wf(),
        ensures
            self.size_bytes == log_bytes(self.messages()).len(),
            self.size_bytes + self.unsaved_bytes <= MAX_SIZE_BYTES,
            self.current_offset == self.start_offset + self.messages().len(),
            self.end_offset == (if self.messages().len() == 0 {
                0
            } else {
                self.current_offset - 1
            }),
            all_encodable(self.messages() + self.pending()),
            offsets_from(self.messages() + self.pending(), self.start_offset as int),
            timestamps_rise(self.messages() + self.pending()),
            self.is_closed ==> self.pending().len() == 0,
    {
        reveal(Segment::wf);
    }

    /// Whether the newest persisted message has outlived the expiry at `now`.
    pub open spec fn expired_at(&self, now: u64) -> bool {
        match self.message_expiry {
            None => false,
            Some(expiry) => self.messages().len() > 0 && self.messages().last().timestamp + expiry
                * 1_000_000 <= now,
        }
    }

    /// Whether the segment takes no more messages at `now`: it has reached
    /// the configured size, or it has expired.
    pub open spec fn full_at(&self, now: u64) -> bool {
        self.size_bytes >= self.config.segment.size || self.expired_at(now)
    }

    /// An empty, open segment that starts at `start_offset`.
    pub fn create(
        stream_id: u32,
        topic_id: u32,
        partition_id: u32,
        start_offset: u64,
        config: Arc<SystemConfig>,
        message_expiry: Option<u32>,
    ) -> (segment: Segment)
        ensures
            segment.wf(),
            segment.stream_id == stream_id,
            segment.topic_id == topic_id,
            segment.partition_id == partition_id,
            segment.start_offset == start_offset,
            segment.end_offset == 0,
            segment.current_offset == start_offset,
            segment.size_bytes == 0,
            segment.unsaved_bytes == 0,
            !segment.is_closed,
            segment.message_expiry == message_expiry,
            segment.unsaved_messages is None,
            segment.config == config,
            segment.messages() == Seq::<MessageView>::empty(),
            segment.indexes is Some <==> config.segment.cache_indexes,
            segment.time_indexes is Some <==> config.segment.cache_time_indexes,
            segment.log_path@ == file_path(
                segment_path(config.path@, stream_id, topic_id, partition_id, start_offset),
                LOG_EXTENSION@,
            ),
            segment.index_path@ == file_path(
                segment_path(config.path@, stream_id, topic_id, partition_id, start_offset),
                INDEX_EXTENSION@,
            ),
            segment.time_index_path@ == file_path(
                segment_path(config.path@, stream_id, topic_id, partition_id, start_offset),
                TIME_INDEX_EXTENSION@,
            ),
    {
        proof {
            reveal(Segment::wf);
        }
        let path = config.get_segment_path(stream_id, topic_id, partition_id, start_offset);
        let indexes: Option<Vec<Index>> = if config.segment.cache_indexes {
            Some(Vec::new())
        } else {
            None
        };
        let time_indexes: Option<Vec<TimeIndex>> = if config.segment.cache_time_indexes {
            Some(Vec::new())
        } else {
            None
        };
        let segment = Segment {
            stream_id,
            topic_id,
            partition_id,
            start_offset,
            end_offset: 0,
            current_offset: start_offset,
            log_path: Self::get_log_path(path.as_str()),
            index_path: Self::get_index_path(path.as_str()),
            time_index_path: Self::get_time_index_path(path.as_str()),
            size_bytes: 0,
            unsaved_bytes: 0,
            message_expiry,
            indexes,
            time_indexes,
            unsaved_messages: None,
            is_closed: false,
            config,
            storage: SegmentStorage { log: Vec::new(), index: Vec::new(), time_index: Vec::new() },
            persisted: Ghost(Seq::empty()),
        };
        proof {
            let none = Seq::<MessageView>::empty();
            assert(none + segment.pending() =~= none);
            lemma_rise(none);
            assert(index_records(segment.storage.index@) =~= dense_index(none));
            assert(time_index_records(segment.storage.time_index@) =~= dense_time_index(none));
            assert(dense_index(none) =~= Seq::<Index>::empty());
            assert(dense_time_index(none) =~= Seq::<TimeIndex>::empty());
        }
        segment
    }

    /// Whether the segment takes no more messages now. The answer depends
    /// on the clock only where the segment is below its size and holds a
    /// message that can expire.
    pub fn is_full(&self) -> (full: bool)
        requires
            self.wf(),
        ensures
            self.size_bytes >= self.config.segment.size ==> full,
            self.message_expiry is None || self.messages().len() == 0 ==> full == (self.size_bytes
                >= self.config.segment.size),
            full ==> exists|now: u64| self.full_at(now),
            !full ==> exists|now: u64| !self.full_at(now),
    {
        proof {
            reveal(Segment::wf);
        }
        let now = now_micros();
        self.is_full_at(now)
    }

    /// Whether the segment takes no more messages at `now`.
    pub fn is_full_at(&self, now: u64) -> (full: bool)
        requires
            self.wf(),
        ensures
            full == self.full_at(now),
    {
        proof {
            reveal(Segment::wf);
        }
        if self.size_bytes >= self.config.segment.size {
            return true;
        }
        self.is_expired(now)
    }

    /// Whether the newest persisted message has outlived the segment's
    /// expiry at `now`, both in microseconds. A segment without an expiry
    /// or without messages never expires.
    pub fn is_expired(&self, now: u64) -> (expired: bool)
        requires
            self.wf(),
        ensures
            expired == self.expired_at(now),
    {
        proof {
            reveal(Segment::wf);
        }
        match self.message_expiry {
            None => false,
            Some(expiry) => {
                match self.last_timestamp() {
                    None => false,
                    Some(timestamp) => {
                        let lifetime = expiry as u64 * 1_000_000;
                        match timestamp.checked_add(lifetime) {
                            Some(deadline) => deadline <= now,
                            None => false,
                        }
                    },
                }
            },
        }
    }

    /// The timestamp of the newest persisted message.
    pub fn last_timestamp(&self) -> (timestamp: Option<u64>)
        requires
            self.wf(),
        ensures
            timestamp == (if self.messages().len() == 0 {
                None
            } else {
                Some(self.messages().last().timestamp)
            }),
    {
        proof {
            reveal(Segment::wf);
        }
        let len = self.storage.time_index.len();
        if len < 12 {
            return None;
        }
        proof {
            let last = self.messages().len() - 1;
            let records = time_index_records(self.storage.time_index@);
            assert(records[last] == TimeIndex::at(self.storage.time_index@, last));
            assert(records[last].timestamp == self.messages()[last].timestamp);
        }
        Some(read_u64(self.storage.time_index.as_slice(), len - 8))
    }

    /// Why the segment refuses to buffer `incoming`, if it does: it is
    /// sealed; an offset does not continue the segment's; a timestamp falls
    /// behind an earlier one; or the records do not fit below
    /// `MAX_SIZE_BYTES`.
    pub open spec fn refusal(&self, incoming: Seq<MessageView>) -> Option<LogError> {
        let held = self.messages() + self.pending();
        let next = self.start_offset + held.len();
        if self.is_closed {
            Some(LogError::SegmentClosed)
        } else if !offsets_from(incoming, next) || next + incoming.len() > u64::MAX {
            Some(LogError::InvalidOffset)
        } else if !timestamps_rise(held + incoming) {
            Some(LogError::InvalidTimestamp)
        } else if !all_encodable(incoming) || self.size_bytes + self.unsaved_bytes + log_bytes(
            incoming,
        ).len() > MAX_SIZE_BYTES {
            Some(LogError::TooLarge)
        } else {
            None
        }
    }

    /// The timestamp of the newest message, buffered or persisted.
    fn newest_timestamp(&self) -> (timestamp: Option<u64>)
        requires
            self.wf(),
        ensures
            timestamp == (if (self.messages() + self.pending()).len() == 0 {
                None
            } else {
                Some((self.messages() + self.pending()).last().timestamp)
            }),
    {
        proof {
            reveal(Segment::wf);
        }
        match &self.unsaved_messages {
            Some(buffer) if buffer.len() > 0 => Some(buffer[buffer.len() - 1].timestamp),
            _ => {
                assert(self.messages() + self.pending() =~= self.messages());
                self.last_timestamp()
            },
        }
    }

    /// Decides whether `messages` can be buffered, and measures their records.
    fn survey(&self, messages: &Vec<Message>) -> (verdict: (Option<LogError>, u32))
        requires
            self.wf(),
        ensures
            verdict.0 == self.refusal(views(messages@)),
            verdict.0 is None ==> verdict.1 == log_bytes(views(messages@)).len(),
    {
        proof {
            reveal(Segment::wf);
        }
        if self.is_closed {
            return (Some(LogError::SegmentClosed), 0);
        }
        let ghost held = self.messages() + self.pending();
        let ghost incoming = views(messages@);
        let buffered: usize = match &self.unsaved_messages {
            Some(buffer) => buffer.len(),
            None => 0,
        };
        let next: u64 = self.current_offset + buffered as u64;
        let budget: u64 = (MAX_SIZE_BYTES - self.size_bytes - self.unsaved_bytes) as u64;
        let newest = self.newest_timestamp();
        let mut any = newest.is_some();
        let mut previous: u64 = match newest {
            Some(timestamp) => timestamp,
            None => 0,
        };
        let mut offsets_ok = true;
        let mut timestamps_ok = true;
        let mut fits = true;
        let mut total: u64 = 0;
        let count = messages.len();
        let mut i: usize = 0;
        proof {
            assert(incoming.take(0) =~= Seq::<MessageView>::empty());
            assert(held + incoming.take(0) =~= held);
        }
        while i < count
            invariant
                i <= count == messages@.len(),
                incoming == views(messages@),
                budget <= MAX_SIZE_BYTES,
                any <==> (held + incoming.take(i as int)).len() > 0,
                offsets_ok <==> offsets_from(incoming.take(i as int), next as int),
                timestamps_ok <==> timestamps_rise(held + incoming.take(i as int)),
                timestamps_ok && any ==> previous == (held + incoming.take(i as int)).last().timestamp,
                fits <==> all_encodable(incoming.take(i as int)) && log_bytes(
                    incoming.take(i as int),
                ).len() <= budget,
                fits ==> total == log_bytes(incoming.take(i as int)).len(),
            decreases count - i,
        {
            let message = &messages[i];
            proof {
                let before = incoming.take(i as int);
                let after = incoming.take(i + 1);
                assert(after =~= before.push(message@));
                assert(held + after =~= (held + before).push(message@));
                lemma_rise_push(held + before, message@);
                lemma_log_bytes_push(before, message@);
                if offsets_from(after, next as int) {
                    assert forall|k: int| 0 <= k < before.len() implies (#[trigger] before[k]).offset
                        == next + k by {
                        assert(after[k].offset == next + k);
                    }
                    assert(after[i as int].offset == next + i);
                }
                if all_encodable(after) {
                    assert forall|k: int| 0 <= k < before.len() implies (#[trigger] before[k])
                        .encodable() by {
                        assert(after[k].encodable());
                    }
                    assert(after[i as int].encodable());
                }
            }
            if message.offset < next || message.offset - next != i as u64 {
                offsets_ok = false;
            }
            if any && message.timestamp < previous {
                timestamps_ok = false;
            }
            previous = message.timestamp;
            any = true;
            match message.size_bytes() {
                Some(size) if fits && size <= budget - total => {
                    total = total + size;
                },
                _ => {
                    fits = false;
                },
            }
            i += 1;
        }
        proof {
            assert(incoming.take(count as int) =~= incoming);
        }
        if !offsets_ok || count as u64 > u64::MAX - next {
            (Some(LogError::InvalidOffset), 0)
        } else if !timestamps_ok {
            (Some(LogError::InvalidTimestamp), 0)
        } else if !fits {
            (Some(LogError::TooLarge), 0)
        } else {
            (None, total as u32)
        }
    }

    /// Buffers `messages` behind those that the segment holds. Nothing is
    /// written until the next persist. A refused call changes nothing.
    pub fn append_messages(&mut self, messages: Vec<Message>) -> (result: Result<(), LogError>)
        requires
            old(self).wf(),
        ensures
            final(self).wf(),
            result == (match old(self).refusal(views(messages@)) {
                Some(error) => Err::<(), LogError>(error),
                None => Ok(()),
            }),
            result is Err ==> *final(self) == *old(self),
            result is Ok ==> final(self).pending() == old(self).pending() + views(messages@),
            result is Ok ==> *final(self) == (Segment {
                unsaved_messages: final(self).unsaved_messages,
                unsaved_bytes: final(self).unsaved_bytes,
                ..*old(self)
            }),
    {
        proof {
            reveal(Segment::wf);
        }
        let (refusal, size) = self.survey(&messages);
        match refusal {
            Some(error) => {
                return Err(error);
            },
            None => {},
        }
        let ghost held = self.messages() + self.pending();
        let ghost incoming = views(messages@);
        let mut messages = messages;
        match &mut self.unsaved_messages {
            Some(buffer) => {
                buffer.append(&mut messages);
            },
            None => {
                self.unsaved_messages = Some(messages);
            },
        }
        self.unsaved_bytes = self.unsaved_bytes + size;
        proof {
            assert(self.pending() =~= old(self).pending() + incoming);
            lemma_log_bytes_concat(old(self).pending(), incoming);
            assert(self.messages() + self.pending() =~= held + incoming);
            lemma_concat_continues(held, incoming, self.start_offset as int);
        }
        Ok(())
    }

    /// Writes the buffered messages to the log, with one record in each
    /// index for each of them, and moves the segment's offsets and size
    /// past them. Returns what was added. With nothing buffered the call
    /// changes nothing.
    pub fn persist_messages(&mut self) -> (growth: Counters)
        requires
            old(self).wf(),
        ensures
            final(self).wf(),
            final(self).messages() == old(self).messages() + old(self).pending(),
            final(self).pending() == Seq::<MessageView>::empty(),
            growth.size_bytes == old(self).unsaved_bytes,
            growth.messages_count == old(self).pending().len(),
            old(self).pending().len() == 0 ==> *final(self) == *old(self),
            final(self).size_bytes == old(self).size_bytes + old(self).unsaved_bytes,
            *final(self) == (Segment {
                end_offset: final(self).end_offset,
                current_offset: final(self).current_offset,
                size_bytes: final(self).size_bytes,
                unsaved_bytes: final(self).unsaved_bytes,
                unsaved_messages: final(self).unsaved_messages,
                indexes: final(self).indexes,
                time_indexes: final(self).time_indexes,
                storage: final(self).storage,
                persisted: final(self).persisted,
                ..*old(self)
            }),
    {
        proof {
            reveal(Segment::wf);
        }
        let nothing = match &self.unsaved_messages {
            Some(buffer) => buffer.len() == 0,
            None => true,
        };
        if nothing {
            return Counters { size_bytes: 0, messages_count: 0 };
        }
        let ghost before = self.messages();
        let ghost pending = self.pending();
        let mut taken: Option<Vec<Message>> = None;
        std::mem::swap(&mut self.unsaved_messages, &mut taken);
        let buffer = taken.unwrap();
        let count = buffer.len();
        let first: u64 = self.current_offset - self.start_offset;
        let mut i: usize = 0;
        proof {
            assert(pending.take(0) =~= Seq::<MessageView>::empty());
            assert(before + pending.take(0) =~= before);
            lemma_log_bytes_concat(before, pending);
        }
        while i < count
            invariant
                i <= count == buffer@.len(),
                pending == views(buffer@),
                first == before.len(),
                self.persisted@ == before + pending.take(i as int),
                files_hold(self.storage@, self.persisted@),
                self.indexes is Some <==> self.config.segment.cache_indexes,
                self.time_indexes is Some <==> self.config.segment.cache_time_indexes,
                self.indexes matches Some(cache) ==> cache@ == dense_index(self.persisted@),
                self.time_indexes matches Some(cache) ==> cache@ == dense_time_index(
                    self.persisted@,
                ),
                all_encodable(before + pending),
                log_bytes(before + pending).len() <= MAX_SIZE_BYTES,
                *self == (Segment {
                    unsaved_messages: self.unsaved_messages,
                    indexes: self.indexes,
                    time_indexes: self.time_indexes,
                    storage: self.storage,
                    persisted: self.persisted,
                    ..*old(self)
                }),
                self.unsaved_messages is None,
            decreases count - i,
        {
            let message = &buffer[i];
            proof {
                let done = before + pending.take(i as int);
                assert(pending.take(i + 1) =~= pending.take(i as int).push(message@));
                assert(before + pending.take(i + 1) =~= done.push(message@));
                assert((before + pending)[first + i] == message@);
                assert(message@.encodable());
                lemma_log_bytes_push(done, message@);
                lemma_dense_push(done, message@);
                lemma_index_records_push(
                    self.storage.index@,
                    Index {
                        relative_offset: done.len() as u32,
                        position: log_bytes(done).len() as u32,
                    },
                );
                lemma_time_index_records_push(
                    self.storage.time_index@,
                    TimeIndex { relative_offset: done.len() as u32, timestamp: message@.timestamp },
                );
                assert((before + pending).take(first + i + 1) =~= done.push(message@));
                crate::log::lemma_log_bytes_split(before + pending, first + i + 1);
                lemma_log_bytes_len(done.push(message@));
                vstd::bytes::lemma_auto_spec_u32_to_from_le_bytes();
                vstd::bytes::lemma_auto_spec_u64_to_from_le_bytes();
            }
            let relative_offset = (first + i as u64) as u32;
            let index = Index { relative_offset, position: self.storage.log.len() as u32 };
            let time_index = TimeIndex { relative_offset, timestamp: message.timestamp };
            message.encode_into(&mut self.storage.log);
            index.encode_into(&mut self.storage.index);
            time_index.encode_into(&mut self.storage.time_index);
            match &mut self.indexes {
                Some(cache) => {
                    cache.push(index);
                },
                None => {},
            }
            match &mut self.time_indexes {
                Some(cache) => {
                    cache.push(time_index);
                },
                None => {},
            }
            self.persisted = Ghost(self.persisted@.push(message@));
            i += 1;
        }
        proof {
            assert(pending.take(count as int) =~= pending);
            assert(self.persisted@ + self.pending() =~= before + pending);
        }
        let growth = Counters { size_bytes: self.unsaved_bytes as u64, messages_count: count as u64 };
        self.size_bytes = self.size_bytes + self.unsaved_bytes;
        self.unsaved_bytes = 0;
        self.current_offset = self.current_offset + count as u64;
        self.end_offset = self.current_offset - 1;
        growth
    }

    /// Appends one message to a segment that has nothing buffered, and
    /// persists it. The message carries the segment's next offset and a
    /// timestamp no earlier than that of the newest message, and its record
    /// fits below `MAX_SIZE_BYTES`.
    pub(crate) fn write(&mut self, message: Message) -> (growth: Counters)
        requires
            old(self).wf(),
            old(self).pending().len() == 0,
            !old(self).is_closed,
            message@.encodable(),
            message@.offset == old(self).current_offset,
            message@.offset < u64::MAX,
            old(self).messages().len() > 0 ==> old(self).messages().last().timestamp
                <= message@.timestamp,
            old(self).size_bytes + message@.size() <= MAX_SIZE_BYTES,
        ensures
            final(self).wf(),
            final(self).pending().len() == 0,
            final(self).messages() == old(self).messages().push(message@),
            growth.size_bytes == message@.size(),
            growth.messages_count == 1,
            final(self).size_bytes == old(self).size_bytes + message@.size(),
            final(self).start_offset == old(self).start_offset,
            final(self).is_closed == old(self).is_closed,
            final(self).config == old(self).config,
            final(self).message_expiry == old(self).message_expiry,
            final(self).stream_id == old(self).stream_id,
            final(self).topic_id == old(self).topic_id,
            final(self).partition_id == old(self).partition_id,
    {
        proof {
            reveal(Segment::wf);
        }
        let ghost view = message@;
        let ghost held = self.messages();
        let mut batch: Vec<Message> = Vec::new();
        batch.push(message);
        proof {
            assert(views(batch@) =~= seq![view]);
            assert(held + self.pending() =~= held);
            assert(log_bytes(seq![view]).len() == view.size()) by {
                lemma_log_bytes_push(Seq::<MessageView>::empty(), view);
                assert(Seq::<MessageView>::empty().push(view) =~= seq![view]);
            }
            assert(held + seq![view] =~= held.push(view));
            lemma_rise_push(held, view);
            assert(self.refusal(views(batch@)) is None);
        }
        let appended = self.append_messages(batch);
        assert(appended is Ok);
        let growth = self.persist_messages();
        proof {
            assert(self.messages() =~= held.push(view));
        }
        growth
    }

    /// Seals the segment: persists what is buffered and takes no more
    /// messages from then on. Returns what the persist added.
    pub fn close(&mut self) -> (growth: Counters)
        requires
            old(self).wf(),
        ensures
            final(self).wf(),
            final(self).is_closed,
            final(self).messages() == old(self).messages() + old(self).pending(),
            final(self).pending() == Seq::<MessageView>::empty(),
            growth.size_bytes == old(self).unsaved_bytes,
            growth.messages_count == old(self).pending().len(),
            final(self).size_bytes == old(self).size_bytes + old(self).unsaved_bytes,
            final(self).start_offset == old(self).start_offset,
            final(self).config == old(self).config,
            final(self).message_expiry == old(self).message_expiry,
            final(self).stream_id == old(self).stream_id,
            final(self).topic_id == old(self).topic_id,
            final(self).partition_id == old(self).partition_id,
    {
        proof {
            reveal(Segment::wf);
        }
        let growth = self.persist_messages();
        self.is_closed = true;
        growth
    }

    /// The position in the log of the record of the `k`-th persisted
    /// message, looked up in the offset index.
    fn position_of(&self, k: u32) -> (at: usize)
        requires
            self.wf(),
            k < self.messages().len(),
        ensures
            at == position(self.messages(), k as int),
    {
        proof {
            reveal(Segment::wf);
            lemma_dense_index_increases(self.messages());
            let records = dense_index(self.messages());
            assert forall|i: int| 0 <= i < k + 1 implies (#[trigger] records[i]).relative_offset
                <= k by {}
            assert forall|i: int| k + 1 <= i < records.len() implies (
            #[trigger] records[i]).relative_offset > k by {}
            lemma_covering(records, k, k + 1);
            assert(0 <= position(self.messages(), k as int) <= u32::MAX);
        }
        let found = match &self.indexes {
            Some(cache) => find_position(cache.as_slice(), k),
            None => {
                let records = read_index_records(self.storage.index.as_slice());
                find_position(records.as_slice(), k)
            },
        };
        found as usize
    }

    /// Decodes `limit` messages from the log, the first of them the `k`-th,
    /// whose record starts at `at`.
    fn read_from(&self, k: u64, at: usize, limit: u64) -> (read: Vec<Message>)
        requires
            self.wf(),
            k + limit <= self.messages().len(),
            at == position(self.messages(), k as int),
        ensures
            views(read@) == self.messages().subrange(k as int, k + limit),
    {
        proof {
            reveal(Segment::wf);
        }
        let mut read: Vec<Message> = Vec::new();
        let mut at = at;
        let mut i: u64 = 0;
        while i < limit
            invariant
                self.wf(),
                i <= limit,
                k + limit <= self.messages().len(),
                at == position(self.messages(), k + i),
                views(read@) == self.messages().subrange(k as int, k + i),
            decreases limit - i,
        {
            proof {
                reveal(Segment::wf);
                assert forall|j: int| 0 <= j < self.messages().len() implies (
                #[trigger] self.messages()[j]).encodable() by {
                    assert((self.messages() + self.pending())[j].encodable());
                }
                lemma_decode_in_log(self.messages(), k + i);
                lemma_position_step(self.messages(), k + i);
            }
            match Message::decode(self.storage.log.as_slice(), at) {
                Some((message, end)) => {
                    let ghost earlier = views(read@);
                    let ghost view = message@;
                    read.push(message);
                    at = end;
                    assert(views(read@) =~= earlier.push(view));
                },
                None => unreached(),
            }
            i += 1;
            assert(views(read@) =~= self.messages().subrange(k as int, k + i));
        }
        read
    }

    /// Up to `count` persisted messages, oldest first, the first of them
    /// the one at `start_offset`. Fewer come back where the segment ends
    /// before `count` were read.
    pub fn get_messages(&self, start_offset: u64, count: u32) -> (result: Result<
        Vec<Message>,
        LogError,
    >)
        requires
            self.wf(),
        ensures
            result is Err <==> self.messages().len() == 0 || start_offset < self.start_offset
                || start_offset > self.end_offset,
            result matches Err(error) ==> error == LogError::InvalidOffset,
            result matches Ok(read) ==> {
                let from = start_offset - self.start_offset;
                let to = if from + count <= self.messages().len() {
                    from + count
                } else {
                    self.messages().len() as int
                };
                views(read@) == self.messages().subrange(from, to)
            },
    {
        proof {
            reveal(Segment::wf);
        }
        let held = self.current_offset - self.start_offset;
        if held == 0 || start_offset < self.start_offset || start_offset > self.end_offset {
            return Err(LogError::InvalidOffset);
        }
        proof {
            lemma_dense_index_increases(self.messages());
        }
        let from = start_offset - self.start_offset;
        let limit = if count as u64 <= held - from {
            count as u64
        } else {
            held - from
        };
        let at = self.position_of(from as u32);
        Ok(self.read_from(from, at, limit))
    }

    /// The newest persisted messages, oldest first: as many as have records
    /// of no more than `size_bytes` in sum.
    pub fn get_newest_messages_by_size(&self, size_bytes: u64) -> (read: Vec<Message>)
        requires
            self.wf(),
        ensures
            read@.len() <= self.messages().len(),
            views(read@) == self.messages().skip(self.messages().len() - read@.len()),
            log_bytes(views(read@)).len() <= size_bytes,
            read@.len() < self.messages().len() ==> log_bytes(
                self.messages().skip(self.messages().len() - read@.len() - 1),
            ).len() > size_bytes,
    {
        proof {
            reveal(Segment::wf);
        }
        let held = self.current_offset - self.start_offset;
        let total = self.size_bytes as u64;
        proof {
            lemma_dense_index_increases(self.messages());
            assert(self.messages().take(held as int) =~= self.messages());
        }
        let mut k: u64 = 0;
        let mut at: usize = 0;
        proof {
            assert(self.messages().take(0) =~= Seq::<MessageView>::empty());
        }
        while k < held && total - at as u64 > size_bytes
            invariant
                self.wf(),
                held == self.messages().len(),
                total == self.size_bytes,
                k <= held,
                at == position(self.messages(), k as int),
                at <= total,
                self.messages().len() <= u32::MAX,
                forall|j: int| 0 <= j < k ==> total - position(self.messages(), j) > size_bytes,
            decreases held - k,
        {
            proof {
                reveal(Segment::wf);
                lemma_dense_index_increases(self.messages());
                assert(self.messages().take(held as int) =~= self.messages());
            }
            k += 1;
            if k < held {
                at = self.position_of(k as u32);
            } else {
                at = self.size_bytes as usize;
            }
        }
        let read = self.read_from(k, at, held - k);
        proof {
            let messages = self.messages();
            assert(views(read@).len() == read@.len());
            assert(messages.subrange(k as int, held as int) =~= messages.skip(k as int));
            lemma_log_bytes_split(messages, k as int);
            if k > 0 {
                lemma_log_bytes_split(messages, k - 1);
                assert(total - position(messages, k - 1) > size_bytes);
            }
        }
        read
    }

    /// Takes over `files` as the segment's persisted state. The longest
    /// run of messages on which the log and both indexes agree is kept
    /// and whatever lies behind it in a file is cut off; the return value
    /// says whether anything was cut. Buffered messages are dropped. The
    /// segment is sealed exactly if the log has reached the configured size.
    #[verifier::rlimit(30)]
    pub fn load(&mut self, files: SegmentStorage) -> (recovered: bool)
        requires
            old(self).wf(),
        ensures
            final(self).wf(),
            final(self).unsaved_messages is None,
            final(self).storage.log@ == files.log@.take(final(self).size_bytes as int),
            final(self).storage.index@ == files.index@.take(8 * final(self).messages().len() as int),
            final(self).storage.time_index@ == files.time_index@.take(
                12 * final(self).messages().len() as int,
            ),
            final(self).size_bytes <= files.log@.len(),
            8 * final(self).messages().len() <= files.index@.len(),
            12 * final(self).messages().len() <= files.time_index@.len(),
            final(self).messages() == loaded(files@, old(self).start_offset),
            final(self).is_closed == (final(self).size_bytes >= final(self).config.segment.size),
            recovered <==> final(self).storage.log@.len() < files.log@.len()
                || final(self).storage.index@.len() < files.index@.len()
                || final(self).storage.time_index@.len() < files.time_index@.len(),
            *final(self) == (Segment {
                end_offset: final(self).end_offset,
                current_offset: final(self).current_offset,
                size_bytes: final(self).size_bytes,
                unsaved_bytes: final(self).unsaved_bytes,
                is_closed: final(self).is_closed,
                unsaved_messages: final(self).unsaved_messages,
                indexes: final(self).indexes,
                time_indexes: final(self).time_indexes,
                storage: final(self).storage,
                persisted: final(self).persisted,
                ..*old(self)
            }),
    {
        proof {
            reveal(Segment::wf);
        }
        let mut files = files;
        let ghost given = files;
        let start = self.start_offset;
        let cache_indexes = self.config.segment.cache_indexes;
        let cache_time_indexes = self.config.segment.cache_time_indexes;
        let mut indexes: Vec<Index> = Vec::new();
        let mut time_indexes: Vec<TimeIndex> = Vec::new();
        let ghost mut held: Seq<MessageView> = Seq::empty();
        let mut at: usize = 0;
        let mut n: usize = 0;
        let mut newest: u64 = 0;
        let mut more = true;
        let log_len = files.log.len();
        let index_len = files.index.len();
        let time_index_len = files.time_index.len();
        proof {
            lemma_rise(held);
            assert(files.log@.take(0) =~= log_bytes(held));
            assert(index_records(files.index@).take(0) =~= dense_index(held));
            assert(time_index_records(files.time_index@).take(0) =~= dense_time_index(held));
        }
        while more
            invariant
                files == given,
                log_len == files.log@.len(),
                index_len == files.index@.len(),
                time_index_len == files.time_index@.len(),
                start == self.start_offset,
                n == held.len(),
                at == log_bytes(held).len(),
                at <= log_len,
                at <= MAX_SIZE_BYTES,
                files.log@.take(at as int) == log_bytes(held),
                start + n <= u64::MAX,
                8 * n <= index_len,
                12 * n <= time_index_len,
                index_records(files.index@).take(n as int) == dense_index(held),
                time_index_records(files.time_index@).take(n as int) == dense_time_index(held),
                cache_indexes ==> indexes@ == dense_index(held),
                cache_time_indexes ==> time_indexes@ == dense_time_index(held),
                !cache_indexes ==> indexes@.len() == 0,
                !cache_time_indexes ==> time_indexes@.len() == 0,
                all_encodable(held),
                offsets_from(held, start as int),
                timestamps_rise(held),
                n > 0 ==> newest == held.last().timestamp,
                scan(files@, start, held) == loaded(files@, start),
                !more ==> !record_follows(files@, start, held),
            decreases log_len - at + (if more { 1int } else { 0int }),
        {
            proof {
                lemma_log_bytes_len(held);
            }
            match Message::decode(files.log.as_slice(), at) {
                None => {
                    more = false;
                },
                Some((message, end)) => {
                    let fits = end <= MAX_SIZE_BYTES as usize && index_len / 8 > n
                        && time_index_len / 12 > n;
                    if fits && message.offset >= start && message.offset - start == n as u64
                        && message.offset < u64::MAX && (n == 0 || newest <= message.timestamp)
                        && read_u32(files.index.as_slice(), 8 * n) == n as u32 && read_u32(
                        files.index.as_slice(),
                        8 * n + 4,
                    ) == at as u32 && read_u32(files.time_index.as_slice(), 12 * n) == n as u32
                        && read_u64(files.time_index.as_slice(), 12 * n + 4)
                        == message.timestamp {
                        let index = Index { relative_offset: n as u32, position: at as u32 };
                        let time_index = TimeIndex {
                            relative_offset: n as u32,
                            timestamp: message.timestamp,
                        };
                        proof {
                            let m = message@;
                            lemma_load_step(files@, start, held, m, end as int);
                            held = held.push(m);
                        }
                        if cache_indexes {
                            indexes.push(index);
                        }
                        if cache_time_indexes {
                            time_indexes.push(time_index);
                        }
                        newest = message.timestamp;
                        at = end;
                        n = n + 1;
                    } else {
                        more = false;
                    }
                },
            }
        }
        let recovered = at < log_len || 8 * n < index_len || 12 * n < time_index_len;
        files.log.truncate(at);
        files.index.truncate(8 * n);
        files.time_index.truncate(12 * n);
        proof {
            lemma_index_records_prefix(given.index@, n as int);
            lemma_time_index_records_prefix(given.time_index@, n as int);
            assert(held + Seq::<MessageView>::empty() =~= held);
            assert(views(Seq::<Message>::empty()) =~= Seq::<MessageView>::empty());
        }
        self.storage = files;
        self.persisted = Ghost(held);
        self.unsaved_messages = None;
        self.unsaved_bytes = 0;
        self.size_bytes = at as u32;
        self.current_offset = start + n as u64;
        self.end_offset = if n == 0 {
            0
        } else {
            self.current_offset - 1
        };
        self.indexes = if cache_indexes {
            Some(indexes)
        } else {
            None
        };
        self.time_indexes = if cache_time_indexes {
            Some(time_indexes)
        } else {
            None
        };
        self.is_closed = self.size_bytes >= self.config.segment.size;
        recovered
    }

    /// The offset of the first persisted message whose timestamp is
    /// `timestamp` or later, by the time index; the offset behind the
    /// segment's last message where every message is earlier.
    pub fn find_offset_by_timestamp(&self, timestamp: u64) -> (offset: u64)
        requires
            self.wf(),
        ensures
            self.start_offset <= offset <= self.current_offset,
            forall|k: int|
                0 <= k < offset - self.start_offset ==> (#[trigger] self.messages()[k]).timestamp
                    < timestamp,
            offset < self.current_offset ==> self.messages()[offset - self.start_offset].timestamp
                >= timestamp,
    {
        proof {
            reveal(Segment::wf);
        }
        proof {
            lemma_dense_index_increases(self.messages());
            lemma_rise(self.messages() + self.pending());
            let records = dense_time_index(self.messages());
            assert forall|i: int, j: int| 0 <= i <= j < records.len() implies records[i].timestamp
                <= records[j].timestamp by {
                assert((self.messages() + self.pending())[i].timestamp <= (self.messages()
                    + self.pending())[j].timestamp);
            }
        }
        let offset = match &self.time_indexes {
            Some(cache) => find_first_at(
                cache.as_slice(),
                self.start_offset,
                self.current_offset,
                timestamp,
            ),
            None => {
                let records = read_time_index_records(self.storage.time_index.as_slice());
                find_first_at(records.as_slice(), self.start_offset, self.current_offset, timestamp)
            },
        };
        proof {
            let records = dense_time_index(self.messages());
            assert forall|k: int| 0 <= k < offset - self.start_offset implies (
            #[trigger] self.messages()[k]).timestamp < timestamp by {
                assert(records[k].timestamp == self.messages()[k].timestamp);
            }
        }
        offset
    }

    /// The timestamp of the oldest persisted message.
    pub fn first_timestamp(&self) -> (timestamp: Option<u64>)
        requires
            self.wf(),
        ensures
            timestamp == (if self.messages().len() == 0 {
                None
            } else {
                Some(self.messages()[0].timestamp)
            }),
    {
        proof {
            reveal(Segment::wf);
        }
        let len = self.storage.time_index.len();
        if len < 12 {
            return None;
        }
        proof {
            let records = time_index_records(self.storage.time_index@);
            assert(records[0] == TimeIndex::at(self.storage.time_index@, 0));
            assert(records[0].timestamp == self.messages()[0].timestamp);
        }
        Some(read_u64(self.storage.time_index.as_slice(), 4))
    }

    fn get_log_path(path: &str) -> (file: String)
        ensures
            file@ == file_path(path@, LOG_EXTENSION@),
    {
        let mut file = String::from_str(path);
        file.append(".");
        file.append(LOG_EXTENSION);
        file
    }

    fn get_index_path(path: &str) -> (file: String)
        ensures
            file@ == file_path(path@, INDEX_EXTENSION@),
    {
        let mut file = String::from_str(path);
        file.append(".");
        file.append(INDEX_EXTENSION);
        file
    }

    fn get_time_index_path(path: &str) -> (file: String)
        ensures
            file@ == file_path(path@, TIME_INDEX_EXTENSION@),
    {
        let mut file = String::from_str(path);
        file.append(".");
        file.append(TIME_INDEX_EXTENSION);
        file
    }
}

/// `find_offset_by_timestamp` on a dense time index, whose `k`-th record has
/// the relative offset `k`.
fn find_first_at(records: &[TimeIndex], start_offset: u64, end_offset: u64, timestamp: u64) -> (offset:
    u64)
    requires
        timestamps_ordered(records@),
        start_offset + records@.len() == end_offset,
        records@.len() <= u32::MAX,
        forall|k: int| 0 <= k < records@.len() ==> (#[trigger] records@[k]).relative_offset == k,
    ensures
        offset == start_offset + earlier(records@, timestamp),
        0 <= earlier(records@, timestamp) <= records@.len(),
        forall|k: int|
            0 <= k < earlier(records@, timestamp) ==> (#[trigger] records@[k]).timestamp < timestamp,
        earlier(records@, timestamp) < records@.len() ==> records@[earlier(
            records@,
            timestamp,
        )].timestamp >= timestamp,
{
    proof {
        lemma_earlier_cuts(records@, timestamp);
    }
    find_offset_by_timestamp(records, start_offset, end_offset, timestamp)
}

/// One step of a load: where the records of `m` follow `held` in `files`,
/// the first records of the files are those of `held` with `m` behind them.
proof fn lemma_load_step(
    files: StorageView,
    start_offset: u64,
    held: Seq<MessageView>,
    m: MessageView,
    end: int,
)
    requires
        files.log.take(log_bytes(held).len() as int) == log_bytes(held),
        log_bytes(held).len() <= files.log.len(),
        decode_at(files.log, log_bytes(held).len() as int) == Some((m, end)),
        end <= MAX_SIZE_BYTES,
        m.offset == start_offset + held.len(),
        m.offset < u64::MAX,
        held.len() == 0 || held.last().timestamp <= m.timestamp,
        8 * (held.len() + 1) <= files.index.len(),
        12 * (held.len() + 1) <= files.time_index.len(),
        Index::at(files.index, held.len() as int) == (Index {
            relative_offset: held.len() as u32,
            position: log_bytes(held).len() as u32,
        }),
        TimeIndex::at(files.time_index, held.len() as int) == (TimeIndex {
            relative_offset: held.len() as u32,
            timestamp: m.timestamp,
        }),
        index_records(files.index).take(held.len() as int) == dense_index(held),
        time_index_records(files.time_index).take(held.len() as int) == dense_time_index(held),
        all_encodable(held),
        offsets_from(held, start_offset as int),
        timestamps_rise(held),
    ensures
        record_follows(files, start_offset, held),
        scan(files, start_offset, held) == scan(files, start_offset, held.push(m)),
        end == log_bytes(held.push(m)).len(),
        end <= files.log.len(),
        files.log.take(end) == log_bytes(held.push(m)),
        index_records(files.index).take(held.len() as int + 1) == dense_index(held.push(m)),
        time_index_records(files.time_index).take(held.len() as int + 1) == dense_time_index(
            held.push(m),
        ),
        dense_index(held.push(m)) == dense_index(held).push(
            Index { relative_offset: held.len() as u32, position: log_bytes(held).len() as u32 },
        ),
        dense_time_index(held.push(m)) == dense_time_index(held).push(
            TimeIndex { relative_offset: held.len() as u32, timestamp: m.timestamp },
        ),
        all_encodable(held.push(m)),
        offsets_from(held.push(m), start_offset as int),
        timestamps_rise(held.push(m)),
{
    let n = held.len() as int;
    let at = log_bytes(held).len() as int;
    let index = Index { relative_offset: n as u32, position: at as u32 };
    let time_index = TimeIndex { relative_offset: n as u32, timestamp: m.timestamp };
    lemma_decoded_record(files.log, at);
    lemma_log_bytes_push(held, m);
    lemma_dense_push(held, m);
    lemma_rise_push(held, m);
    assert(files.log.take(end) =~= files.log.take(at) + files.log.subrange(at, end));
    assert(index_records(files.index)[n] == index);
    assert(time_index_records(files.time_index)[n] == time_index);
    assert(index_records(files.index).take(n + 1) =~= index_records(files.index).take(n).push(
        index,
    ));
    assert(time_index_records(files.time_index).take(n + 1) =~= time_index_records(
        files.time_index,
    ).take(n).push(time_index));
    assert forall|k: int| 0 <= k < held.push(m).len() implies (#[trigger] held.push(m)[k]).offset
        == start_offset + k && held.push(m)[k].encodable() by {
        if k < held.len() {
            assert(held[k].offset == start_offset + k);
            assert(held[k].encodable());
        }
    }
    assert(record_follows(files, start_offset, held));
}

impl Segment {
    /// The offset index and the time index hold one record for each
    /// message of the log, in the log's order.
    pub proof fn lemma_indexes_aligned(&self)
        requires
            self.wf(),
        ensures
            self.storage.log@ == log_bytes(self.messages()),
            index_records(self.storage.index@).len() == self.messages().len(),
            time_index_records(self.storage.time_index@).len() == self.messages().len(),
            index_records(self.storage.index@) == dense_index(self.messages()),
            time_index_records(self.storage.time_index@) == dense_time_index(self.messages()),
            self.indexes matches Some(cache) ==> cache@ == index_records(self.storage.index@),
            self.time_indexes matches Some(cache) ==> cache@ == time_index_records(
                self.storage.time_index@,
            ),
    {
        reveal(Segment::wf);
    }

    /// Loading the files that a segment has persisted gives its messages
    /// back, and cuts nothing off the files.
    pub proof fn lemma_load_round_trip(&self)
        requires
            self.wf(),
        ensures
            loaded(self.storage@, self.start_offset) == self.messages(),
            log_bytes(loaded(self.storage@, self.start_offset)).len() == self.storage.log@.len(),
            8 * loaded(self.storage@, self.start_offset).len() == self.storage.index@.len(),
            12 * loaded(self.storage@, self.start_offset).len() == self.storage.time_index@.len(),
    {
        reveal(Segment::wf);
        self.lemma_scan(0);
        assert(self.messages().take(0) =~= Seq::<MessageView>::empty());
    }

    /// A load that has come as far as the first `k` persisted messages
    /// ends with all of them.
    proof fn lemma_scan(&self, k: int)
        requires
            self.wf(),
            0 <= k <= self.messages().len(),
        ensures
            scan(self.storage@, self.start_offset, self.messages().take(k)) == self.messages(),
        decreases self.messages().len() - k,
    {
        reveal(Segment::wf);
        let a = self.messages();
        let held = a.take(k);
        lemma_rise(a + self.pending());
        assert forall|i: int| 0 <= i < a.len() implies (#[trigger] a[i]).encodable() by {
            assert((a + self.pending())[i].encodable());
        }
        if k < a.len() {
            lemma_decode_in_log(a, k);
            lemma_position_step(a, k);
            lemma_dense_index_increases(a);
            assert((a + self.pending())[k].offset == self.start_offset + k);
            if k > 0 {
                assert((a + self.pending())[k - 1].timestamp <= (a + self.pending())[k].timestamp);
                assert(held.last() == a[k - 1]);
            }
            assert(index_records(self.storage.index@)[k] == Index::at(self.storage.index@, k));
            assert(time_index_records(self.storage.time_index@)[k] == TimeIndex::at(
                self.storage.time_index@,
                k,
            ));
            assert(record_follows(self.storage@, self.start_offset, held));
            assert(held.push(a[k]) =~= a.take(k + 1));
            self.lemma_scan(k + 1);
        } else {
            assert(held =~= a);
            assert(decode_at(self.storage.log@, log_bytes(a).len() as int) is None);
        }
    }
}

} // verus!
