//! A partition: the unit of ordering.
//!
//! A partition owns a chain of segments, the last of them open. It assigns
//! each appended message the next offset and a timestamp that never falls,
//! seals the open segment when it is full or the next record would not fit,
//! and counts the bytes and messages that it holds.

use std::sync::Arc;
use vstd::prelude::*;
use crate::chain::{
    chained, continues, is_stale, joined, lemma_chain_skip, lemma_joined_at, lemma_joined_push,
    lemma_linked_log, lemma_log_of_messages, lemma_log_of_push, lemma_log_of_split, lemma_opened,
    lemma_rise_parts, lemma_rolled, lemma_runs_join, lemma_segment_in_log, lemma_size_of_log,
    lemma_stale, lemma_starts_rise, lemma_written, linked, log_of, must_roll, opened, placed,
    placed_all, rolled, size_of, stale, written, SegmentModel,
};
use crate::configs::{share, SystemConfig, MAX_SIZE_BYTES};
use crate::error::LogError;
use crate::log::{
    lemma_log_bytes_len, lemma_log_bytes_push, lemma_log_bytes_split, lemma_older, lemma_rise,
    lemma_rise_concat, lemma_rise_push, log_bytes, offsets_from, older, timestamps_rise,
};
use crate::message::{Message, MessageView};
use crate::segment::{loaded, views, Counters, Segment, SegmentFiles};

verus! {

/// Where a consumer reads next.
#[derive(Clone, Copy, PartialEq, Eq, Debug, Structural)]
pub struct ConsumerOffset {
    pub consumer_id: u32,
    /// Offset of the next message that the consumer is given.
    pub offset: u64,
}

pub struct Partition {
    pub stream_id: u32,
    pub topic_id: u32,
    pub id: u32,
    /// The chain of segments, oldest first; the last one is open.
    pub segments: Vec<Segment>,
    /// Offset that the next message takes.
    pub current_offset: u64,
    /// Timestamp of the newest message that was ever appended.
    pub newest_timestamp: u64,
    /// The newest messages, oldest first, where the cache is enabled.
    pub cache: Option<Vec<Message>>,
    pub consumer_offsets: Vec<ConsumerOffset>,
    pub created_at: u64,
    /// Bytes and messages that the segments hold.
    pub counters: Counters,
    pub message_expiry: Option<u32>,
    pub config: Arc<SystemConfig>,
}

/// The models of `segments`, in order.
pub open spec fn models(segments: Seq<Segment>) -> Seq<SegmentModel> {
    Seq::new(segments.len(), |i: int| segments[i].model())
}

/// The same messages, with offsets that count up from `first` and all with
/// the timestamp `timestamp`.
pub open spec fn stamped_all(messages: Seq<MessageView>, first: int, timestamp: u64) -> Seq<
    MessageView,
> {
    Seq::new(messages.len(), |i: int| messages[i].stamped((first + i) as u64, timestamp))
}

/// The later of two times.
pub open spec fn later(a: u64, b: u64) -> u64 {
    if a >= b {
        a
    } else {
        b
    }
}

/// Where the entry of `consumer_id` stands in `offsets`: the index of the
/// first entry with that id, or the length where there is none.
pub open spec fn cursor_index(offsets: Seq<ConsumerOffset>, consumer_id: u32) -> int
    decreases offsets.len(),
{
    if offsets.len() == 0 {
        0
    } else {
        let at = cursor_index(offsets.drop_last(), consumer_id);
        if at < offsets.len() - 1 {
            at
        } else if offsets.last().consumer_id == consumer_id {
            offsets.len() - 1
        } else {
            offsets.len() as int
        }
    }
}

/// An index before which no entry is of `consumer_id`, and at which one is
/// unless it is the length, is where `cursor_index` says.
pub proof fn lemma_cursor_index(offsets: Seq<ConsumerOffset>, consumer_id: u32, at: int)
    requires
        0 <= at <= offsets.len(),
        forall|k: int| 0 <= k < at ==> (#[trigger] offsets[k]).consumer_id != consumer_id,
        at < offsets.len() ==> offsets[at].consumer_id == consumer_id,
    ensures
        cursor_index(offsets, consumer_id) == at,
    decreases offsets.len(),
{
    if offsets.len() > 0 {
        let front = offsets.drop_last();
        if at < offsets.len() {
            assert forall|k: int| 0 <= k < at implies (#[trigger] front[k]).consumer_id
                != consumer_id by {
                assert(front[k] == offsets[k]);
            }
            if at < front.len() {
                assert(front[at] == offsets[at]);
            }
            lemma_cursor_index(front, consumer_id, at);
        } else {
            assert forall|k: int| 0 <= k < front.len() implies (#[trigger] front[k]).consumer_id
                != consumer_id by {
                assert(front[k] == offsets[k]);
            }
            lemma_cursor_index(front, consumer_id, front.len() as int);
            assert(offsets.last() == offsets[offsets.len() - 1]);
        }
    }
}

/// The sealed segment that `file` holds: the messages that a load takes
/// from it.
pub open spec fn sealed_in(file: SegmentFiles) -> SegmentModel {
    SegmentModel {
        start_offset: file.start_offset,
        messages: loaded(file.storage@, file.start_offset),
        is_closed: true,
    }
}

/// The sealed segments that `files` hold, in their order.
pub open spec fn chain_in(files: Seq<SegmentFiles>) -> Seq<SegmentModel> {
    Seq::new(files.len(), |k: int| sealed_in(files[k]))
}

/// Whether a load cuts bytes off a file of `file`: one of the three files
/// is longer than the records of the messages on which they agree.
pub open spec fn cut_short(file: SegmentFiles) -> bool {
    let messages = loaded(file.storage@, file.start_offset);
    ||| log_bytes(messages).len() < file.storage@.log.len()
    ||| 8 * messages.len() < file.storage@.index.len()
    ||| 12 * messages.len() < file.storage@.time_index.len()
}

/// Whether a load cuts bytes off a file of one of `files`.
pub open spec fn any_cut(files: Seq<SegmentFiles>) -> bool {
    exists|k: int| 0 <= k < files.len() && cut_short(#[trigger] files[k])
}

/// Whether a load cuts bytes off a file among the first `k + 1` files: off
/// one of the first `k`, or off the one behind them.
pub proof fn lemma_any_cut_step(files: Seq<SegmentFiles>, k: int)
    requires
        0 <= k < files.len(),
    ensures
        any_cut(files.take(k + 1)) <==> any_cut(files.take(k)) || cut_short(files[k]),
{
    let shorter = files.take(k);
    let longer = files.take(k + 1);
    if any_cut(shorter) {
        let w = choose|w: int| 0 <= w < shorter.len() && cut_short(#[trigger] shorter[w]);
        assert(longer[w] == shorter[w]);
    }
    if cut_short(files[k]) {
        assert(longer[k] == files[k]);
    }
    if any_cut(longer) {
        let w = choose|w: int| 0 <= w < longer.len() && cut_short(#[trigger] longer[w]);
        if w < k {
            assert(shorter[w] == longer[w]);
        } else {
            assert(longer[w] == files[k]);
        }
    }
}

impl Partition {
    /// The chain of segment models.
    pub open spec fn model(&self) -> Seq<SegmentModel> {
        models(self.segments@)
    }

    /// The messages that the partition holds, oldest first.
    pub open spec fn messages(&self) -> Seq<MessageView> {
        log_of(self.model())
    }

    /// Offset of the oldest message that the partition can still hold.
    pub open spec fn first_offset(&self) -> u64 {
        self.segments@[0].start_offset
    }

    /// The offset from which the consumer `consumer_id` reads next: where it
    /// stopped, but no earlier than the oldest message and no later than
    /// the next offset; the oldest message for a consumer that never read.
    pub open spec fn cursor_of(&self, consumer_id: u32) -> u64 {
        let at = cursor_index(self.consumer_offsets@, consumer_id);
        let stored = if at < self.consumer_offsets@.len() {
            self.consumer_offsets@[at].offset
        } else {
            self.first_offset()
        };
        if stored < self.first_offset() {
            self.first_offset()
        } else if stored > self.current_offset {
            self.current_offset
        } else {
            stored
        }
    }

    /// The messages that a read of up to `count` messages gives the
    /// consumer `consumer_id`: those from where it reads next.
    pub open spec fn due(&self, consumer_id: u32, count: u32) -> Seq<MessageView> {
        let from = self.cursor_of(consumer_id) - self.first_offset();
        let to = if from + count <= self.messages().len() {
            from + count
        } else {
            self.messages().len() as int
        };
        self.messages().subrange(from, to)
    }

    /// The consumers' offsets after such a read: the entry of
    /// `consumer_id`, added behind the others where there was none, is
    /// behind the last message read.
    pub open spec fn moved(&self, consumer_id: u32, count: u32) -> Seq<ConsumerOffset> {
        let at = cursor_index(self.consumer_offsets@, consumer_id);
        let entry = ConsumerOffset {
            consumer_id,
            offset: (self.cursor_of(consumer_id) + self.due(consumer_id, count).len()) as u64,
        };
        if at < self.consumer_offsets@.len() {
            self.consumer_offsets@.update(at, entry)
        } else {
            self.consumer_offsets@.push(entry)
        }
    }

    /// A segment of this partition at rest: well-formed, with nothing
    /// buffered, under the partition's configuration and expiry.
    pub open spec fn owns(&self, segment: Segment) -> bool {
        &&& segment.wf()
        &&& segment.pending().len() == 0
        &&& segment.config == self.config
        &&& segment.message_expiry == self.message_expiry
        &&& segment.stream_id == self.stream_id
        &&& segment.topic_id == self.topic_id
        &&& segment.partition_id == self.id
    }

    /// The invariant of the segments, offsets, timestamps and counters.
    pub open spec fn chain_wf(&self) -> bool {
        let chain = self.model();
        &&& self.config.valid()
        &&& forall|i: int| 0 <= i < self.segments@.len() ==> self.owns(#[trigger] self.segments@[i])
        &&& chained(chain)
        &&& self.current_offset == chain.last().start_offset + chain.last().messages.len()
        &&& timestamps_rise(log_of(chain))
        &&& log_of(chain).len() > 0 ==> log_of(chain).last().timestamp <= self.newest_timestamp
        &&& self.counters.size_bytes == size_of(chain)
        &&& self.counters.messages_count == log_of(chain).len()
    }

    /// The message cache is present exactly if enabled, and then holds the
    /// newest messages of `log`, no more than the configured amount.
    pub open spec fn cache_holds(&self, log: Seq<MessageView>) -> bool {
        &&& self.cache is Some <==> self.config.cache.enabled
        &&& self.cache matches Some(cached) ==> {
            &&& cached@.len() <= self.config.cache.messages_amount
            &&& cached@.len() <= log.len()
            &&& views(cached@) == log.skip(log.len() - cached@.len())
        }
    }

    /// How many messages the cache holds; none where it is disabled.
    pub open spec fn cached_count(&self) -> nat {
        match self.cache {
            Some(cached) => cached@.len(),
            None => 0,
        }
    }

    /// How many messages the cache holds after `added` messages were
    /// appended: the newest ones, up to the configured amount.
    pub open spec fn cached_after(&self, added: nat) -> nat {
        if !self.config.cache.enabled {
            0
        } else if self.cached_count() + added <= self.config.cache.messages_amount {
            self.cached_count() + added
        } else {
            self.config.cache.messages_amount as nat
        }
    }

    /// The invariant of the message cache.
    pub open spec fn cache_wf(&self) -> bool {
        self.cache_holds(self.messages())
    }

    /// Whether the partition takes `messages`: each has a record of no more
    /// than `MAX_SIZE_BYTES`, and neither the offsets nor the byte counter
    /// would pass the largest `u64`.
    pub open spec fn accepts(&self, messages: Seq<MessageView>) -> bool {
        &&& forall|i: int|
            0 <= i < messages.len() ==> (#[trigger] messages[i]).encodable() && messages[i].size()
                <= MAX_SIZE_BYTES
        &&& self.current_offset + messages.len() <= u64::MAX
        &&& self.counters.size_bytes + log_bytes(messages).len() <= u64::MAX
    }

    /// The partition's invariant.
    pub open spec fn wf(&self) -> bool {
        self.chain_wf() && self.cache_wf()
    }

    /// An empty partition with one open segment that starts at offset 0.
    pub fn create(
        stream_id: u32,
        topic_id: u32,
        partition_id: u32,
        config: Arc<SystemConfig>,
        message_expiry: Option<u32>,
        created_at: u64,
    ) -> (result: Result<Partition, LogError>)
        ensures
            result is Ok <==> config.valid(),
            result matches Err(error) ==> error == LogError::ConfigError,
            result matches Ok(partition) ==> {
                &&& partition.wf()
                &&& partition.stream_id == stream_id
                &&& partition.topic_id == topic_id
                &&& partition.id == partition_id
                &&& partition.config == config
                &&& partition.message_expiry == message_expiry
                &&& partition.created_at == created_at
                &&& partition.current_offset == 0
                &&& partition.newest_timestamp == 0
                &&& partition.counters == (Counters { size_bytes: 0, messages_count: 0 })
                &&& partition.consumer_offsets@.len() == 0
                &&& partition.segments@.len() == 1
                &&& partition.first_offset() == 0
                &&& partition.messages() == Seq::<MessageView>::empty()
            },
    {
        match config.validate() {
            Err(error) => {
                return Err(error);
            },
            Ok(()) => {},
        }
        let segment = Segment::create(
            stream_id,
            topic_id,
            partition_id,
            0,
            share(&config),
            message_expiry,
        );
        let cache: Option<Vec<Message>> = if config.cache.enabled {
            Some(Vec::new())
        } else {
            None
        };
        let mut segments: Vec<Segment> = Vec::new();
        segments.push(segment);
        let partition = Partition {
            stream_id,
            topic_id,
            id: partition_id,
            segments,
            current_offset: 0,
            newest_timestamp: 0,
            cache,
            consumer_offsets: Vec::new(),
            created_at,
            counters: Counters { size_bytes: 0, messages_count: 0 },
            message_expiry,
            config,
        };
        proof {
            let chain = partition.model();
            assert(chain.drop_last() =~= Seq::<SegmentModel>::empty());
            assert(log_of(chain.drop_last()) =~= Seq::<MessageView>::empty());
            assert(log_of(chain) =~= Seq::<MessageView>::empty());
            lemma_rise(log_of(chain));
            assert(size_of(chain.drop_last()) == 0);
            assert(partition.messages().skip(0) =~= views(Seq::<Message>::empty()));
        }
        Ok(partition)
    }
    /// Seals the open segment and opens a new one behind it, where a record
    /// of `size` bytes must not be written to it at `now`.
    fn roll_if_full(&mut self, size: u64, now: u64)
        requires
            old(self).chain_wf(),
        ensures
            final(self).chain_wf(),
            final(self).model() == (if must_roll(
                old(self).model().last().messages,
                size as nat,
                old(self).config.segment.size,
                old(self).message_expiry,
                now,
            ) {
                rolled(old(self).model(), old(self).current_offset)
            } else {
                old(self).model()
            }),
            final(self).messages() == old(self).messages(),
            size <= MAX_SIZE_BYTES ==> log_bytes(final(self).model().last().messages).len() + size
                <= MAX_SIZE_BYTES,
            *final(self) == (Partition { segments: final(self).segments, ..*old(self) }),
    {
        let last = self.segments.len() - 1;
        let segment = &self.segments[last];
        proof {
            assert(self.owns(*segment));
            assert(segment.model() == self.model().last());
            segment.lemma_wf();
            lemma_log_bytes_len(segment.messages());
        }
        let roll = segment.is_full_at(now) || (segment.size_bytes > 0 && size > (
        self.config.segment.size - segment.size_bytes) as u64);
        if roll {
            let ghost before = self.segments@;
            let mut sealed = self.segments.pop().unwrap();
            let _ = sealed.close();
            self.segments.push(sealed);
            let fresh = Segment::create(
                self.stream_id,
                self.topic_id,
                self.id,
                self.current_offset,
                share(&self.config),
                self.message_expiry,
            );
            self.segments.push(fresh);
            proof {
                assert(sealed.messages() =~= before.last().messages());
                assert(self.model() =~= rolled(old(self).model(), old(self).current_offset));
                lemma_rolled(old(self).model(), old(self).current_offset);
                assert forall|i: int| 0 <= i < self.segments@.len() implies self.owns(
                    #[trigger] self.segments@[i],
                ) by {
                    if i < last {
                        assert(self.segments@[i] == before[i]);
                        assert(old(self).owns(before[i]));
                    }
                }
            }
        }
    }

    /// Writes `message`, which carries the next offset and a timestamp that
    /// does not fall, behind the open segment's messages.
    fn write(&mut self, message: Message) -> (growth: Counters)
        requires
            old(self).chain_wf(),
            message@.encodable(),
            message@.offset == old(self).current_offset,
            message@.offset < u64::MAX,
            message@.timestamp >= old(self).newest_timestamp,
            log_bytes(old(self).model().last().messages).len() + message@.size() <= MAX_SIZE_BYTES,
            old(self).counters.size_bytes + message@.size() <= u64::MAX,
        ensures
            final(self).chain_wf(),
            final(self).model() == written(old(self).model(), message@),
            final(self).messages() == old(self).messages().push(message@),
            growth.size_bytes == message@.size(),
            growth.messages_count == 1,
            *final(self) == (Partition {
                segments: final(self).segments,
                current_offset: (old(self).current_offset + 1) as u64,
                newest_timestamp: message@.timestamp,
                counters: Counters {
                    size_bytes: (old(self).counters.size_bytes + message@.size()) as u64,
                    messages_count: (old(self).counters.messages_count + 1) as u64,
                },
                ..*old(self)
            }),
    {
        let ghost view = message@;
        let timestamp = message.timestamp;
        proof {
            self.lemma_open_segment();
        }
        let mut open = self.segments.pop().unwrap();
        let growth = open.write(message);
        self.segments.push(open);
        self.current_offset = self.current_offset + 1;
        self.newest_timestamp = timestamp;
        self.counters = Counters {
            size_bytes: self.counters.size_bytes + growth.size_bytes,
            messages_count: self.counters.messages_count + 1,
        };
        proof {
            assert(self.segments@.drop_last() =~= old(self).segments@.drop_last());
            old(self).lemma_written_to(*self, view);
        }
        growth
    }

    /// What the open segment of a partition is to the partition: it ends
    /// where the partition's log ends, and its newest message is the
    /// newest of the log.
    proof fn lemma_open_segment(&self)
        requires
            self.chain_wf(),
        ensures
            self.segments@.len() > 0,
            self.owns(self.segments@.last()),
            self.segments@.last().model() == self.model().last(),
            !self.segments@.last().is_closed,
            self.segments@.last().current_offset == self.current_offset,
            self.segments@.last().size_bytes == log_bytes(self.model().last().messages).len(),
            self.segments@.last().messages().len() > 0 ==> self.messages().len() > 0
                && self.segments@.last().messages().last() == self.messages().last(),
            self.first_offset() + self.messages().len() == self.current_offset,
            self.counters.messages_count == self.messages().len(),
    {
        let chain = self.model();
        let last = self.segments@.len() - 1;
        let open = self.segments@[last];
        assert(self.owns(open));
        assert(open.model() == chain.last());
        open.lemma_wf();
        lemma_linked_log(chain);
        if open.messages().len() > 0 {
            lemma_segment_in_log(chain, last);
            let from = chain[last].start_offset - chain[0].start_offset;
            assert(log_of(chain)[from + open.messages().len() - 1] == open.messages().last());
        }
    }

    /// A partition whose open segment has taken the message `m`, with the
    /// next offset and a timestamp that does not fall, and whose offset,
    /// newest timestamp and counters have moved with it, is well-formed
    /// and holds `m` behind its log.
    proof fn lemma_written_to(&self, after: Partition, m: MessageView)
        requires
            self.chain_wf(),
            m.offset == self.current_offset,
            m.offset < u64::MAX,
            m.timestamp >= self.newest_timestamp,
            after.segments@.len() == self.segments@.len(),
            after.segments@.drop_last() == self.segments@.drop_last(),
            ({
                let open = self.segments@.last();
                let written = after.segments@.last();
                &&& written.wf()
                &&& written.pending().len() == 0
                &&& written.messages() == open.messages().push(m)
                &&& written.start_offset == open.start_offset
                &&& written.is_closed == open.is_closed
                &&& written.config == open.config
                &&& written.message_expiry == open.message_expiry
                &&& written.stream_id == open.stream_id
                &&& written.topic_id == open.topic_id
                &&& written.partition_id == open.partition_id
            }),
            after == (Partition {
                segments: after.segments,
                current_offset: (self.current_offset + 1) as u64,
                newest_timestamp: m.timestamp,
                counters: Counters {
                    size_bytes: (self.counters.size_bytes + m.size()) as u64,
                    messages_count: (self.counters.messages_count + 1) as u64,
                },
                ..*self
            }),
            self.counters.size_bytes + m.size() <= u64::MAX,
        ensures
            after.chain_wf(),
            after.model() == written(self.model(), m),
            after.messages() == self.messages().push(m),
    {
        let chain = self.model();
        let last = self.segments@.len() - 1;
        self.lemma_open_segment();
        lemma_written(chain, m);
        assert forall|i: int| 0 <= i < after.segments@.len() implies after.owns(
            #[trigger] after.segments@[i],
        ) && after.segments@[i].model() == written(chain, m)[i] by {
            if i < last {
                assert(after.segments@[i] == after.segments@.drop_last()[i]);
                assert(self.segments@[i] == self.segments@.drop_last()[i]);
                assert(self.owns(self.segments@[i]));
            } else {
                assert(self.owns(self.segments@[last]));
            }
        }
        assert(after.model() =~= written(chain, m));
        lemma_rise_push(log_of(chain), m);
        assert(log_of(written(chain, m)).last() == m);
    }

    /// Puts `message`, the newest of the log, into the cache, and drops the
    /// oldest cached message where the cache is at its amount.
    fn remember(&mut self, message: &Message)
        requires
            old(self).messages().len() > 0,
            old(self).messages().last() == message@,
            old(self).cache_holds(old(self).messages().drop_last()),
        ensures
            final(self).cache_wf(),
            final(self).cached_count() == old(self).cached_after(1),
            *final(self) == (Partition { cache: final(self).cache, ..*old(self) }),
    {
        let amount = self.config.cache.messages_amount;
        let ghost log = self.messages();
        match &mut self.cache {
            None => {},
            Some(cached) => {
                if amount > 0 {
                    let ghost before = views(cached@);
                    if cached.len() as u64 >= amount {
                        let _ = cached.remove(0);
                        assert(views(cached@) =~= before.skip(1));
                    }
                    let ghost kept = views(cached@);
                    cached.push(message.clone());
                    assert(views(cached@) =~= kept.push(message@));
                    assert(views(cached@) =~= log.skip(log.len() - cached@.len()));
                } else {
                    assert(views(cached@) =~= log.skip(log.len() - cached@.len()));
                }
            },
        }
    }

    /// Gives `message` the next offset and the later of `now` and the
    /// newest timestamp, and appends it.
    fn place(&mut self, message: Message, now: u64) -> (growth: Counters)
        requires
            old(self).wf(),
            message@.encodable(),
            message@.size() <= MAX_SIZE_BYTES,
            old(self).current_offset < u64::MAX,
            old(self).counters.size_bytes + message@.size() <= u64::MAX,
        ensures
            final(self).wf(),
            final(self).model() == placed(
                old(self).model(),
                message@.stamped(
                    old(self).current_offset,
                    later(old(self).newest_timestamp, now),
                ),
                old(self).config.segment.size,
                old(self).message_expiry,
                now,
            ),
            final(self).messages() == old(self).messages().push(
                message@.stamped(
                    old(self).current_offset,
                    later(old(self).newest_timestamp, now),
                ),
            ),
            growth.size_bytes == message@.size(),
            growth.messages_count == 1,
            final(self).cached_count() == old(self).cached_after(1),
            *final(self) == (Partition {
                segments: final(self).segments,
                cache: final(self).cache,
                current_offset: (old(self).current_offset + 1) as u64,
                newest_timestamp: later(old(self).newest_timestamp, now),
                counters: Counters {
                    size_bytes: (old(self).counters.size_bytes + message@.size()) as u64,
                    messages_count: (old(self).counters.messages_count + 1) as u64,
                },
                ..*old(self)
            }),
    {
        let mut message = message;
        message.offset = self.current_offset;
        message.timestamp = if self.newest_timestamp >= now {
            self.newest_timestamp
        } else {
            now
        };
        let size = match message.size_bytes() {
            Some(size) => size,
            None => 0,
        };
        let copy = message.clone();
        self.roll_if_full(size, now);
        let growth = self.write(message);
        proof {
            assert(self.messages().drop_last() =~= old(self).messages());
        }
        self.remember(&copy);
        growth
    }

    /// Appends one message at `now`. See `append_messages`.
    pub fn append_message(&mut self, message: Message, now: u64) -> (result: Result<
        Counters,
        LogError,
    >)
        requires
            old(self).wf(),
        ensures
            final(self).wf(),
            result is Ok <==> old(self).accepts(seq![message@]),
            result matches Err(error) ==> error == LogError::TooLarge && *final(self) == *old(self),
            result matches Ok(growth) ==> {
                let m = message@.stamped(
                    old(self).current_offset,
                    later(old(self).newest_timestamp, now),
                );
                &&& final(self).model() == placed(
                    old(self).model(),
                    m,
                    old(self).config.segment.size,
                    old(self).message_expiry,
                    now,
                )
                &&& final(self).messages() == old(self).messages().push(m)
                &&& growth.size_bytes == message@.size()
                &&& growth.messages_count == 1
                &&& final(self).cached_count() == old(self).cached_after(1)
                &&& *final(self) == (Partition {
                    segments: final(self).segments,
                    cache: final(self).cache,
                    current_offset: (old(self).current_offset + 1) as u64,
                    newest_timestamp: later(old(self).newest_timestamp, now),
                    counters: Counters {
                        size_bytes: (old(self).counters.size_bytes + message@.size()) as u64,
                        messages_count: (old(self).counters.messages_count + 1) as u64,
                    },
                    ..*old(self)
                })
            },
    {
        proof {
            let one = seq![message@];
            assert(one[0] == message@);
            lemma_log_bytes_push(Seq::<MessageView>::empty(), message@);
            assert(Seq::<MessageView>::empty().push(message@) =~= one);
        }
        let fits = match message.size_bytes() {
            Some(size) => size <= MAX_SIZE_BYTES as u64 && self.current_offset < u64::MAX && size
                <= u64::MAX - self.counters.size_bytes,
            None => false,
        };
        if !fits {
            return Err(LogError::TooLarge);
        }
        let growth = self.place(message, now);
        Ok(growth)
    }
    /// Measures the records of `messages`; `None` where the partition does
    /// not take them.
    pub fn measure(&self, messages: &Vec<Message>) -> (total: Option<u64>)
        ensures
            total is Some <==> self.accepts(views(messages@)),
            total matches Some(size) ==> size == log_bytes(views(messages@)).len(),
    {
        let ghost incoming = views(messages@);
        let count = messages.len();
        let room: u64 = u64::MAX - self.counters.size_bytes;
        let mut fits = count as u64 <= u64::MAX - self.current_offset;
        let mut total: u64 = 0;
        let mut i: usize = 0;
        proof {
            assert(incoming.take(0) =~= Seq::<MessageView>::empty());
        }
        while i < count
            invariant
                i <= count == messages@.len(),
                incoming == views(messages@),
                room + self.counters.size_bytes == u64::MAX,
                fits <==> {
                    &&& self.current_offset + count <= u64::MAX
                    &&& forall|k: int|
                        0 <= k < i ==> (#[trigger] incoming[k]).encodable() && incoming[k].size()
                            <= MAX_SIZE_BYTES
                    &&& log_bytes(incoming.take(i as int)).len() <= room
                },
                fits ==> total == log_bytes(incoming.take(i as int)).len(),
            decreases count - i,
        {
            proof {
                assert(incoming.take(i + 1) =~= incoming.take(i as int).push(incoming[i as int]));
                lemma_log_bytes_push(incoming.take(i as int), incoming[i as int]);
            }
            match messages[i].size_bytes() {
                Some(size) => {
                    if fits && size <= MAX_SIZE_BYTES as u64 && size <= room - total {
                        total = total + size;
                    } else {
                        fits = false;
                    }
                },
                None => {
                    fits = false;
                },
            }
            i += 1;
        }
        proof {
            assert(incoming.take(count as int) =~= incoming);
        }
        if fits {
            Some(total)
        } else {
            None
        }
    }

    /// Appends `messages` at `now`, in order. Each message is given the
    /// next offset and, all alike, the later of `now` and the timestamp of
    /// the newest message before them. Before a message is written the open
    /// segment is sealed, and a new one opened at the message's offset,
    /// where `must_roll` says so. The messages are persisted and can be
    /// read when the call returns. Returns the bytes and messages added.
    ///
    /// The messages are refused as a whole, and nothing changes, where the
    /// partition does not accept them.
    #[verifier::rlimit(30)]
    pub fn append_messages(&mut self, messages: Vec<Message>, now: u64) -> (result: Result<
        Counters,
        LogError,
    >)
        requires
            old(self).wf(),
        ensures
            final(self).wf(),
            result is Ok <==> old(self).accepts(views(messages@)),
            result matches Err(error) ==> error == LogError::TooLarge && *final(self) == *old(self),
            result matches Ok(growth) ==> {
                let timestamp = later(old(self).newest_timestamp, now);
                let stamped = stamped_all(
                    views(messages@),
                    old(self).current_offset as int,
                    timestamp,
                );
                &&& final(self).model() == placed_all(
                    old(self).model(),
                    stamped,
                    old(self).config.segment.size,
                    old(self).message_expiry,
                    now,
                )
                &&& final(self).messages() == old(self).messages() + stamped
                &&& growth.size_bytes == log_bytes(views(messages@)).len()
                &&& growth.messages_count == messages@.len()
                &&& final(self).cached_count() == old(self).cached_after(messages@.len())
                &&& *final(self) == (Partition {
                    segments: final(self).segments,
                    cache: final(self).cache,
                    current_offset: (old(self).current_offset + messages@.len()) as u64,
                    newest_timestamp: if messages@.len() > 0 {
                        timestamp
                    } else {
                        old(self).newest_timestamp
                    },
                    counters: Counters {
                        size_bytes: (old(self).counters.size_bytes + growth.size_bytes) as u64,
                        messages_count: (old(self).counters.messages_count + messages@.len()) as u64,
                    },
                    ..*old(self)
                })
            },
    {
        let total = match self.measure(&messages) {
            Some(total) => total,
            None => {
                return Err(LogError::TooLarge);
            },
        };
        let ghost incoming = views(messages@);
        let ghost timestamp = later(self.newest_timestamp, now);
        let ghost stamped = stamped_all(incoming, self.current_offset as int, timestamp);
        let ghost chain = self.model();
        let count = messages.len();
        let mut i: usize = 0;
        proof {
            assert(stamped.take(0) =~= Seq::<MessageView>::empty());
            assert(incoming.take(0) =~= Seq::<MessageView>::empty());
            assert(self.messages() + stamped.take(0) =~= self.messages());
            lemma_linked_log(chain);
        }
        while i < count
            invariant
                i <= count == messages@.len(),
                incoming == views(messages@),
                old(self).accepts(incoming),
                timestamp == later(old(self).newest_timestamp, now),
                stamped == stamped_all(incoming, old(self).current_offset as int, timestamp),
                chain == old(self).model(),
                self.wf(),
                self.model() == placed_all(
                    chain,
                    stamped.take(i as int),
                    old(self).config.segment.size,
                    old(self).message_expiry,
                    now,
                ),
                self.messages() == old(self).messages() + stamped.take(i as int),
                self.cached_count() == old(self).cached_after(i as nat),
                old(self).cache_wf(),
                old(self).counters.messages_count + i <= u64::MAX,
                *self == (Partition {
                    segments: self.segments,
                    cache: self.cache,
                    current_offset: (old(self).current_offset + i) as u64,
                    newest_timestamp: if i > 0 {
                        timestamp
                    } else {
                        old(self).newest_timestamp
                    },
                    counters: Counters {
                        size_bytes: (old(self).counters.size_bytes + log_bytes(
                            incoming.take(i as int),
                        ).len()) as u64,
                        messages_count: (old(self).counters.messages_count + i) as u64,
                    },
                    ..*old(self)
                }),
            decreases count - i,
        {
            proof {
                assert(incoming[i as int].encodable() && incoming[i as int].size()
                    <= MAX_SIZE_BYTES);
                assert(incoming.take(i + 1) =~= incoming.take(i as int).push(incoming[i as int]));
                lemma_log_bytes_push(incoming.take(i as int), incoming[i as int]);
                lemma_log_bytes_split(incoming, i + 1);
                assert(stamped.take(i + 1).drop_last() =~= stamped.take(i as int));
                assert(stamped.take(i + 1).last() == stamped[i as int]);
                assert(stamped.take(i + 1) =~= stamped.take(i as int).push(stamped[i as int]));
                assert(old(self).messages() + stamped.take(i + 1) =~= (old(self).messages()
                    + stamped.take(i as int)).push(stamped[i as int]));
                lemma_linked_log(self.model());
            }
            let message = messages[i].clone();
            let _ = self.place(message, now);
            i += 1;
        }
        proof {
            assert(stamped.take(count as int) =~= stamped);
            assert(incoming.take(count as int) =~= incoming);
        }
        Ok(Counters { size_bytes: total, messages_count: count as u64 })
    }
    /// A segment of a partition with these ids, at rest and sealed, that
    /// holds what `file` holds.
    pub open spec fn loaded_from(
        segment: Segment,
        file: SegmentFiles,
        stream_id: u32,
        topic_id: u32,
        partition_id: u32,
        config: Arc<SystemConfig>,
        message_expiry: Option<u32>,
    ) -> bool {
        &&& segment.wf()
        &&& segment.pending().len() == 0
        &&& segment.config == config
        &&& segment.message_expiry == message_expiry
        &&& segment.stream_id == stream_id
        &&& segment.topic_id == topic_id
        &&& segment.partition_id == partition_id
        &&& segment.start_offset == file.start_offset
        &&& segment.messages() == loaded(file.storage@, file.start_offset)
    }

    /// Builds a partition from the files of its segments, given in the
    /// order of their first offsets. Each segment is loaded as
    /// `Segment::load` loads it. The segments must continue each other:
    /// each but the last holds messages and ends where the next starts,
    /// and no timestamp falls. All but the last are sealed; the last is
    /// the open segment unless its log has reached the configured size, in
    /// which case an empty segment is opened behind it. Without files the
    /// partition is empty. The second value returned says whether a load
    /// has cut bytes off a file.
    #[verifier::rlimit(30)]
    pub fn load(
        stream_id: u32,
        topic_id: u32,
        partition_id: u32,
        config: Arc<SystemConfig>,
        message_expiry: Option<u32>,
        created_at: u64,
        files: Vec<SegmentFiles>,
    ) -> (result: Result<(Partition, bool), LogError>)
        ensures
            result is Ok <==> config.valid() && joined(chain_in(files@)) && size_of(
                chain_in(files@),
            ) <= u64::MAX,
            result matches Err(error) ==> error == (if !config.valid() {
                LogError::ConfigError
            } else if !joined(chain_in(files@)) {
                LogError::CorruptedIndex
            } else {
                LogError::TooLarge
            }),
            result matches Ok(built) ==> {
                let partition = built.0;
                let log = log_of(chain_in(files@));
                &&& partition.wf()
                &&& partition.model() == opened(chain_in(files@), config.segment.size)
                &&& partition.counters.size_bytes == size_of(chain_in(files@))
                &&& partition.messages() == log
                &&& partition.stream_id == stream_id
                &&& partition.topic_id == topic_id
                &&& partition.id == partition_id
                &&& partition.config == config
                &&& partition.message_expiry == message_expiry
                &&& partition.created_at == created_at
                &&& partition.consumer_offsets@.len() == 0
                &&& partition.cached_count() == 0
                &&& partition.newest_timestamp == (if log.len() > 0 {
                    log.last().timestamp
                } else {
                    0
                })
                &&& built.1 <==> any_cut(files@)
            },
    {
        match config.validate() {
            Err(error) => {
                return Err(error);
            },
            Ok(()) => {},
        }
        let ghost all = files@;
        let mut rest = files;
        let mut segments: Vec<Segment> = Vec::new();
        let mut current: Option<Segment> = None;
        let mut recovered = false;
        let mut overflow = false;
        let mut size: u64 = 0;
        let mut newest: u64 = 0;
        let mut any = false;
        let total = rest.len();
        let mut k: usize = 0;
        proof {
            assert(all.skip(0) =~= all);
            assert(chain_in(all.take(0)) =~= Seq::<SegmentModel>::empty());
            assert(log_of(Seq::<SegmentModel>::empty()) =~= Seq::<MessageView>::empty());
            lemma_rise(Seq::<MessageView>::empty());
        }
        while k < total
            invariant
                config.valid(),
                k <= total == all.len(),
                all == files@,
                rest@ == all.skip(k as int),
                current is None <==> k == 0,
                current matches Some(segment) ==> Self::loaded_from(
                    segment,
                    all[k - 1],
                    stream_id,
                    topic_id,
                    partition_id,
                    config,
                    message_expiry,
                ) && segment.is_closed == (segment.size_bytes >= config.segment.size),
                k > 0 ==> segments@.len() == k - 1,
                k == 0 ==> segments@.len() == 0,
                forall|i: int|
                    0 <= i < segments@.len() ==> Self::loaded_from(
                        #[trigger] segments@[i],
                        all[i],
                        stream_id,
                        topic_id,
                        partition_id,
                        config,
                        message_expiry,
                    ) && segments@[i].is_closed,
                joined(chain_in(all.take(k as int))),
                !overflow ==> size == size_of(chain_in(all.take(k as int))),
                overflow ==> size_of(chain_in(all.take(k as int))) > u64::MAX,
                any <==> log_of(chain_in(all.take(k as int))).len() > 0,
                any ==> newest == log_of(chain_in(all.take(k as int))).last().timestamp,
                !any ==> newest == 0,
                recovered <==> any_cut(all.take(k as int)),
            decreases total - k,
        {
            let ghost done = chain_in(all.take(k as int));
            let ghost more = chain_in(all.take(k + 1));
            let file = rest.remove(0);
            let ghost held = sealed_in(all[k as int]);
            proof {
                assert(file == all[k as int]);
                assert(rest@ =~= all.skip(k + 1));
                assert(more =~= done.push(held));
                lemma_log_of_push(done, held);
            }
            let mut segment = Segment::create(
                stream_id,
                topic_id,
                partition_id,
                file.start_offset,
                share(&config),
                message_expiry,
            );
            let cut = segment.load(file.storage);
            proof {
                segment.lemma_wf();
                assert(segment.messages() + segment.pending() =~= segment.messages());
                assert(cut <==> cut_short(all[k as int]));
            }
            let first = segment.first_timestamp();
            let last = segment.last_timestamp();
            let in_order = match first {
                Some(timestamp) => !any || newest <= timestamp,
                None => true,
            };
            let mut previous: Option<Segment> = None;
            std::mem::swap(&mut current, &mut previous);
            let follows = match &previous {
                Some(sealed) => sealed.current_offset > sealed.start_offset && sealed.current_offset
                    == segment.start_offset,
                None => true,
            };
            proof {
                lemma_rise_concat(log_of(done), held.messages);
                if previous is Some {
                    previous->0.lemma_wf();
                    assert(done[k - 1] == sealed_in(all[k - 1]));
                    assert(done.last() == done[k - 1]);
                    assert(follows <==> continues(done.last(), held));
                }
            }
            if !follows || !in_order {
                proof {
                    lemma_joined_at(chain_in(all), k as int);
                    assert(chain_in(all).take(k + 1) =~= more);
                    assert(chain_in(all).take(k as int) =~= done);
                }
                return Err(LogError::CorruptedIndex);
            }
            proof {
                lemma_joined_push(done, held);
            }
            match previous {
                Some(sealed) => {
                    let mut sealed = sealed;
                    let _ = sealed.close();
                    proof {
                        assert(sealed.messages() =~= loaded(
                            all[k - 1].storage@,
                            all[k - 1].start_offset,
                        ));
                    }
                    segments.push(sealed);
                },
                None => {},
            }
            if !overflow {
                if segment.size_bytes as u64 <= u64::MAX - size {
                    size = size + segment.size_bytes as u64;
                } else {
                    overflow = true;
                }
            }
            match last {
                Some(timestamp) => {
                    newest = timestamp;
                    any = true;
                },
                None => {},
            }
            if cut {
                recovered = true;
            }
            proof {
                lemma_any_cut_step(all, k as int);
                if held.messages.len() > 0 {
                    assert(log_of(more).last() == held.messages.last());
                }
            }
            current = Some(segment);
            k = k + 1;
        }
        proof {
            assert(all.take(total as int) =~= all);
        }
        if overflow {
            return Err(LogError::TooLarge);
        }
        let ghost chain = chain_in(all);
        match current {
            Some(segment) => {
                let full = segment.is_closed;
                let end = segment.current_offset;
                proof {
                    segment.lemma_wf();
                }
                segments.push(segment);
                if full {
                    let fresh = Segment::create(
                        stream_id,
                        topic_id,
                        partition_id,
                        end,
                        share(&config),
                        message_expiry,
                    );
                    segments.push(fresh);
                }
            },
            None => {
                let fresh = Segment::create(
                    stream_id,
                    topic_id,
                    partition_id,
                    0,
                    share(&config),
                    message_expiry,
                );
                segments.push(fresh);
            },
        }
        let cache: Option<Vec<Message>> = if config.cache.enabled {
            Some(Vec::new())
        } else {
            None
        };
        let last = segments.len() - 1;
        let current_offset = segments[last].current_offset;
        let first_offset = segments[0].start_offset;
        proof {
            assert forall|i: int| 0 <= i < chain.len() implies (#[trigger] chain[i]).is_closed
                && crate::log::offsets_from(chain[i].messages, chain[i].start_offset as int)
                && chain[i].start_offset + chain[i].messages.len() <= u64::MAX by {
                assert(segments@[i].model().messages == chain[i].messages);
                segments@[i].lemma_wf();
                assert(segments@[i].messages() + segments@[i].pending()
                    =~= segments@[i].messages());
            }
            lemma_opened(chain, config.segment.size);
            assert forall|i: int| 0 <= i < segments@.len() implies (
            #[trigger] segments@[i]).model() == opened(chain, config.segment.size)[i] by {
                segments@[i].lemma_wf();
            }
            assert(models(segments@) =~= opened(chain, config.segment.size));
            lemma_linked_log(models(segments@));
            segments@[last as int].lemma_wf();
        }
        let partition = Partition {
            stream_id,
            topic_id,
            id: partition_id,
            segments,
            current_offset,
            newest_timestamp: newest,
            cache,
            consumer_offsets: Vec::new(),
            created_at,
            counters: Counters { size_bytes: size, messages_count: current_offset - first_offset },
            message_expiry,
            config,
        };
        proof {
            let log = partition.messages();
            assert(log.skip(log.len() as int) =~= views(Seq::<Message>::empty()));
            assert forall|i: int| 0 <= i < partition.segments@.len() implies partition.owns(
                #[trigger] partition.segments@[i],
            ) by {}
        }
        Ok((partition, recovered))
    }

    /// The index of the segment that holds the message at `offset`, found
    /// by bisection of the segments' first offsets.
    fn covering_segment(&self, offset: u64) -> (at: usize)
        requires
            self.chain_wf(),
            self.first_offset() <= offset < self.current_offset,
        ensures
            at < self.segments@.len(),
            self.segments@[at as int].start_offset <= offset < self.segments@[at as int].start_offset
                + self.segments@[at as int].messages().len(),
    {
        let mut low: usize = 0;
        let mut high: usize = self.segments.len();
        while high - low > 1
            invariant
                low < high <= self.segments@.len(),
                self.segments@[low as int].start_offset <= offset,
                high < self.segments@.len() ==> self.segments@[high as int].start_offset > offset,
            decreases high - low,
        {
            let middle = low + (high - low) / 2;
            if self.segments[middle].start_offset <= offset {
                low = middle;
            } else {
                high = middle;
            }
        }
        proof {
            let chain = self.model();
            assert(chain[low as int] == self.segments@[low as int].model());
            if high < self.segments@.len() {
                assert(chain[high as int] == self.segments@[high as int].model());
                assert(chain[low as int].start_offset + chain[low as int].messages.len()
                    == chain[high as int].start_offset);
            }
        }
        low
    }

    /// Reads up to `count` messages from the segments, the first of them
    /// the one at `start_offset`, going on into later segments where one
    /// ends before `count` were read.
    #[verifier::rlimit(30)]
    fn read_segments(&self, start_offset: u64, count: u32) -> (read: Vec<Message>)
        requires
            self.chain_wf(),
            self.first_offset() <= start_offset < self.current_offset,
        ensures
            ({
                let from = start_offset - self.first_offset();
                let to = if from + count <= self.messages().len() {
                    from + count
                } else {
                    self.messages().len() as int
                };
                views(read@) == self.messages().subrange(from, to)
            }),
    {
        let ghost chain = self.model();
        let ghost log = self.messages();
        let ghost from = start_offset - self.first_offset();
        let mut read: Vec<Message> = Vec::new();
        let mut at = self.covering_segment(start_offset);
        let mut next = start_offset;
        let mut wanted = count;
        let total = self.segments.len();
        proof {
            lemma_linked_log(chain);
            assert(views(read@) =~= log.subrange(from, from));
        }
        while wanted > 0 && at < total
            invariant
                forall|i: int| 0 <= i < self.segments@.len() ==> self.owns(#[trigger] self.segments@[i]),
                linked(chain),
                chain == self.model(),
                log == log_of(chain),
                total == self.segments@.len() == chain.len(),
                total > 0,
                from == start_offset - chain[0].start_offset,
                from >= 0,
                chain[0].start_offset + log.len() == self.current_offset,
                self.current_offset == chain[total - 1].start_offset + chain[total
                    - 1].messages.len(),
                at <= total,
                count - wanted == read@.len(),
                next == start_offset + read@.len(),
                next <= self.current_offset,
                views(read@) == log.subrange(from, from + read@.len()),
                wanted > 0 && at < total ==> chain[at as int].start_offset <= next
                    <= chain[at as int].start_offset + chain[at as int].messages.len(),
                wanted > 0 && at == total ==> next == self.current_offset,
            decreases total - at,
        {
            let segment = &self.segments[at];
            let ghost held = segment.messages();
            let ghost base = segment.start_offset - chain[0].start_offset;
            let ghost before = views(read@);
            proof {
                assert(self.owns(*segment));
                segment.lemma_wf();
                assert(chain[at as int] == segment.model());
                lemma_segment_in_log(chain, at as int);
                if at + 1 < total {
                    assert(chain[at as int].start_offset + chain[at as int].messages.len()
                        == chain[at + 1].start_offset);
                }
            }
            match segment.get_messages(next, wanted) {
                Ok(mut part) => {
                    let ghost added = views(part@);
                    let got = part.len();
                    proof {
                        assert(got == added.len());
                        lemma_runs_join(log, held, base, from, before.len() as int, got as int);
                    }
                    read.append(&mut part);
                    proof {
                        assert(views(read@) =~= before + added);
                    }
                    wanted = wanted - got as u32;
                    next = next + got as u64;
                },
                Err(_) => {},
            }
            at = at + 1;
        }
        read
    }

    /// Reads up to `count` messages from the cache, the first of them the
    /// one at `start_offset`; `None` where the cache does not hold it.
    fn read_cached(&self, start_offset: u64, count: u32) -> (read: Option<Vec<Message>>)
        requires
            self.wf(),
            self.first_offset() <= start_offset < self.current_offset,
        ensures
            read is Some <==> self.cache_covers(start_offset),
            read matches Some(found) ==> {
                let from = start_offset - self.first_offset();
                let to = if from + count <= self.messages().len() {
                    from + count
                } else {
                    self.messages().len() as int
                };
                views(found@) == self.messages().subrange(from, to)
            },
    {
        proof {
            lemma_linked_log(self.model());
        }
        match &self.cache {
            None => None,
            Some(cached) => {
                let held = cached.len() as u64;
                if self.current_offset - start_offset > held {
                    return None;
                }
                let ghost log = self.messages();
                let ghost from = start_offset - self.first_offset();
                let first = (held - (self.current_offset - start_offset)) as usize;
                let mut found: Vec<Message> = Vec::new();
                let mut i: usize = first;
                let mut wanted = count;
                proof {
                    assert(views(found@) =~= log.subrange(from, from));
                }
                while wanted > 0 && i < cached.len()
                    invariant
                        first <= i <= cached@.len(),
                        cached@.len() <= log.len(),
                        views(cached@) == log.skip(log.len() - cached@.len()),
                        from == log.len() - cached@.len() + first,
                        count - wanted == i - first,
                        found@.len() == i - first,
                        views(found@) == log.subrange(from, from + (i - first)),
                    decreases cached@.len() - i,
                {
                    let ghost earlier = views(found@);
                    let message = cached[i].clone();
                    proof {
                        assert(views(cached@)[i as int] == cached@[i as int]@);
                        assert(message@ == log[log.len() - cached@.len() + i]);
                    }
                    found.push(message);
                    proof {
                        assert(views(found@) =~= earlier.push(message@));
                        assert(views(found@) =~= log.subrange(from, from + (i + 1 - first)));
                    }
                    i += 1;
                    wanted -= 1;
                }
                Some(found)
            },
        }
    }

    /// Up to `count` messages, oldest first, the first of them the one at
    /// `start_offset`. The read goes through the cache where it holds the
    /// message, else through the segments, and crosses segment boundaries;
    /// the result is the same either way. Fewer than `count` come back
    /// where the log ends first.
    pub fn get_messages_by_offset(&self, start_offset: u64, count: u32) -> (result: Result<
        Vec<Message>,
        LogError,
    >)
        requires
            self.wf(),
        ensures
            result is Err <==> start_offset < self.first_offset() || start_offset
                >= self.current_offset,
            result matches Err(error) ==> error == LogError::InvalidOffset,
            result matches Ok(read) ==> {
                let from = start_offset - self.first_offset();
                let to = if from + count <= self.messages().len() {
                    from + count
                } else {
                    self.messages().len() as int
                };
                views(read@) == self.messages().subrange(from, to)
            },
    {
        if start_offset < self.segments[0].start_offset || start_offset >= self.current_offset {
            return Err(LogError::InvalidOffset);
        }
        match self.read_cached(start_offset, count) {
            Some(read) => Ok(read),
            None => Ok(self.read_segments(start_offset, count)),
        }
    }
    /// The offset of the first message whose timestamp is `timestamp` or
    /// later; the partition's next offset where every message is earlier.
    pub fn find_offset_by_timestamp(&self, timestamp: u64) -> (offset: u64)
        requires
            self.wf(),
        ensures
            offset == self.first_offset() + older(self.messages(), timestamp),
            self.first_offset() <= offset <= self.current_offset,
    {
        let ghost chain = self.model();
        let ghost log = self.messages();
        let total = self.segments.len();
        let mut at: usize = 0;
        proof {
            lemma_linked_log(chain);
        }
        while at < total
            invariant
                forall|i: int| 0 <= i < self.segments@.len() ==> self.owns(#[trigger] self.segments@[i]),
                linked(chain),
                timestamps_rise(log),
                chain == self.model(),
                log == log_of(chain),
                total == self.segments@.len() == chain.len(),
                total > 0,
                chain[0].start_offset + log.len() == self.current_offset,
                self.current_offset == chain[total - 1].start_offset + chain[total
                    - 1].messages.len(),
                at <= total,
                forall|k: int|
                    0 <= k < log.len() && (at == total || k < chain[at as int].start_offset
                        - chain[0].start_offset) ==> (#[trigger] log[k]).timestamp < timestamp,
            decreases total - at,
        {
            let segment = &self.segments[at];
            let ghost held = segment.messages();
            let ghost base = segment.start_offset - chain[0].start_offset;
            proof {
                assert(self.owns(*segment));
                segment.lemma_wf();
                assert(chain[at as int] == segment.model());
                lemma_segment_in_log(chain, at as int);
                assert(held + segment.pending() =~= held);
                lemma_rise(held);
                lemma_rise(log);
                if at + 1 < total {
                    assert(chain[at as int].start_offset + chain[at as int].messages.len()
                        == chain[at + 1].start_offset);
                }
                assert forall|k: int| 0 <= k < held.len() implies held[k] == log[base + k] by {
                    assert(log.subrange(base, base + held.len())[k] == log[base + k]);
                }
            }
            let reached = match segment.last_timestamp() {
                Some(newest) => newest >= timestamp,
                None => false,
            };
            if reached {
                let offset = segment.find_offset_by_timestamp(timestamp);
                proof {
                    let cut = offset - chain[0].start_offset;
                    assert(offset < segment.current_offset) by {
                        if offset == segment.current_offset {
                            assert(held[held.len() - 1].timestamp < timestamp);
                        }
                    }
                    assert(log[cut] == held[offset - segment.start_offset]);
                    assert forall|i: int| 0 <= i < cut implies (#[trigger] log[i]).timestamp
                        < timestamp by {
                        if i >= base {
                            assert(held[i - base].timestamp < timestamp);
                        }
                    }
                    assert forall|i: int| cut <= i < log.len() implies (#[trigger] log[i]).timestamp
                        >= timestamp by {
                        assert(log[cut].timestamp <= log[i].timestamp);
                    }
                    lemma_older(log, timestamp, cut);
                }
                return offset;
            }
            proof {
                assert forall|k: int|
                    0 <= k < log.len() && (at + 1 == total || k < chain[at + 1].start_offset
                        - chain[0].start_offset) implies (#[trigger] log[k]).timestamp
                    < timestamp by {
                    if k >= base {
                        assert(held[k - base] == log[k]);
                        assert(held[k - base].timestamp <= held[held.len() - 1].timestamp);
                    }
                }
            }
            at = at + 1;
        }
        proof {
            lemma_older(log, timestamp, log.len() as int);
        }
        self.current_offset
    }

    /// Up to `count` messages, oldest first, the first of them the oldest
    /// message whose timestamp is `timestamp` or later.
    pub fn get_messages_by_timestamp(&self, timestamp: u64, count: u32) -> (read: Vec<Message>)
        requires
            self.wf(),
        ensures
            ({
                let from = older(self.messages(), timestamp);
                let to = if from + count <= self.messages().len() {
                    from + count
                } else {
                    self.messages().len() as int
                };
                views(read@) == self.messages().subrange(from, to)
            }),
    {
        let offset = self.find_offset_by_timestamp(timestamp);
        proof {
            lemma_linked_log(self.model());
        }
        match self.get_messages_by_offset(offset, count) {
            Ok(read) => read,
            Err(_) => {
                let read: Vec<Message> = Vec::new();
                assert(views(read@) =~= self.messages().subrange(
                    self.messages().len() as int,
                    self.messages().len() as int,
                ));
                read
            },
        }
    }

    /// Up to `count` messages for the consumer `consumer_id`, from where it
    /// stopped, and moves it behind the last message returned. A consumer
    /// that never read, or that stopped at a message which is no longer
    /// held, reads from the oldest message.
    pub fn get_messages_by_consumer(&mut self, consumer_id: u32, count: u32) -> (read: Vec<Message>)
        requires
            old(self).wf(),
        ensures
            final(self).wf(),
            views(read@) == old(self).due(consumer_id, count),
            final(self).consumer_offsets@ == old(self).moved(consumer_id, count),
            *final(self) == (Partition {
                consumer_offsets: final(self).consumer_offsets,
                ..*old(self)
            }),
    {
        let first = self.segments[0].start_offset;
        let known = self.consumer_offsets.len();
        let mut at: usize = 0;
        while at < known && self.consumer_offsets[at].consumer_id != consumer_id
            invariant
                at <= known == self.consumer_offsets@.len(),
                forall|k: int|
                    0 <= k < at ==> (#[trigger] self.consumer_offsets@[k]).consumer_id != consumer_id,
            decreases known - at,
        {
            at += 1;
        }
        proof {
            lemma_cursor_index(self.consumer_offsets@, consumer_id, at as int);
            lemma_linked_log(self.model());
        }
        let stored = if at < known {
            self.consumer_offsets[at].offset
        } else {
            first
        };
        let start = if stored < first {
            first
        } else if stored > self.current_offset {
            self.current_offset
        } else {
            stored
        };
        let read = match self.get_messages_by_offset(start, count) {
            Ok(read) => read,
            Err(_) => {
                let read: Vec<Message> = Vec::new();
                assert(views(read@) =~= self.messages().subrange(
                    self.messages().len() as int,
                    self.messages().len() as int,
                ));
                read
            },
        };
        assert(views(read@).len() == read@.len());
        let moved = ConsumerOffset { consumer_id, offset: start + read.len() as u64 };
        if at < known {
            self.consumer_offsets.set(at, moved);
        } else {
            self.consumer_offsets.push(moved);
        }
        read
    }

    /// Persists what the open segment has buffered. A partition persists
    /// each append before it returns, so nothing is buffered between calls
    /// and the call changes nothing.
    pub fn flush(&mut self) -> (growth: Counters)
        requires
            old(self).wf(),
        ensures
            final(self).wf(),
            growth == (Counters { size_bytes: 0, messages_count: 0 }),
            final(self).model() == old(self).model(),
            final(self).messages() == old(self).messages(),
            *final(self) == (Partition { segments: final(self).segments, ..*old(self) }),
    {
        let ghost before = self.segments@;
        let last = self.segments.len() - 1;
        proof {
            assert(self.owns(before[last as int]));
            before[last as int].lemma_wf();
        }
        let mut open = self.segments.pop().unwrap();
        let growth = open.persist_messages();
        self.segments.push(open);
        proof {
            assert(self.segments@ =~= before);
        }
        growth
    }
    /// How many segments at the head of the chain are sealed with a newest
    /// message no later than `cutoff`.
    fn count_stale(&self, cutoff: u64) -> (count: usize)
        requires
            self.wf(),
        ensures
            count == stale(self.model(), cutoff),
            count < self.segments@.len(),
    {
        let ghost chain = self.model();
        let ghost log = self.messages();
        let total = self.segments.len();
        let mut at: usize = 0;
        let mut more = true;
        proof {
            lemma_linked_log(chain);
        }
        while more && at + 1 < total
            invariant
                forall|i: int| 0 <= i < self.segments@.len() ==> self.owns(#[trigger] self.segments@[i]),
                chained(chain),
                timestamps_rise(log),
                chain == self.model(),
                log == log_of(chain),
                total == self.segments@.len() == chain.len(),
                at < total,
                forall|i: int| 0 <= i < at ==> is_stale(#[trigger] chain[i], cutoff),
                !more ==> forall|i: int| at <= i < total ==> !is_stale(#[trigger] chain[i], cutoff),
            decreases total - at + (if more { 1int } else { 0int }),
        {
            let segment = &self.segments[at];
            proof {
                assert(self.owns(*segment));
                segment.lemma_wf();
                assert(chain[at as int] == segment.model());
            }
            let old_enough = match segment.last_timestamp() {
                Some(newest) => newest <= cutoff,
                None => false,
            };
            if old_enough {
                at = at + 1;
            } else {
                more = false;
                proof {
                    // Later segments hold later messages.
                    lemma_rise(log);
                    let held = chain[at as int].messages;
                    lemma_segment_in_log(chain, at as int);
                    let base = chain[at as int].start_offset - chain[0].start_offset;
                    assert(log[base + held.len() - 1] == held.last()) by {
                        assert(log.subrange(base, base + held.len())[held.len() - 1] == log[base
                            + held.len() - 1]);
                    }
                    assert forall|i: int| at <= i < total implies !is_stale(
                        #[trigger] chain[i],
                        cutoff,
                    ) by {
                        let other = chain[i].messages;
                        if i > at && other.len() > 0 {
                            lemma_segment_in_log(chain, i);
                            let start = chain[i].start_offset - chain[0].start_offset;
                            assert(log[start + other.len() - 1] == other.last()) by {
                                assert(log.subrange(start, start + other.len())[other.len() - 1]
                                    == log[start + other.len() - 1]);
                            }
                            lemma_starts_rise(chain, at as int, i);
                            assert(log[base + held.len() - 1].timestamp <= log[start + other.len()
                                - 1].timestamp);
                        }
                    }
                }
            }
        }
        proof {
            assert(!chain[total - 1].is_closed);
            if more {
                assert forall|i: int| at <= i < total implies !is_stale(
                    #[trigger] chain[i],
                    cutoff,
                ) by {}
            }
            lemma_stale(chain, cutoff, at as int);
        }
        at
    }

    /// The bytes and messages that `segments`, at rest, hold together.
    fn weigh(&self, segments: &Vec<Segment>) -> (sum: Counters)
        requires
            forall|i: int| 0 <= i < segments@.len() ==> self.owns(#[trigger] segments@[i]),
            size_of(models(segments@)) <= u64::MAX,
            log_of(models(segments@)).len() <= u64::MAX,
        ensures
            sum.size_bytes == size_of(models(segments@)),
            sum.messages_count == log_of(models(segments@)).len(),
    {
        let ghost chain = models(segments@);
        let mut sum = Counters { size_bytes: 0, messages_count: 0 };
        let mut i: usize = 0;
        proof {
            assert(chain.take(0) =~= Seq::<SegmentModel>::empty());
        }
        while i < segments.len()
            invariant
                i <= segments@.len(),
                chain == models(segments@),
                forall|k: int| 0 <= k < segments@.len() ==> self.owns(#[trigger] segments@[k]),
                size_of(chain) <= u64::MAX,
                log_of(chain).len() <= u64::MAX,
                sum.size_bytes == size_of(chain.take(i as int)),
                sum.messages_count == log_of(chain.take(i as int)).len(),
            decreases segments@.len() - i,
        {
            let segment = &segments[i];
            proof {
                assert(self.owns(*segment));
                segment.lemma_wf();
                assert(chain.take(i + 1).drop_last() =~= chain.take(i as int));
                assert(chain.take(i + 1).last() == segment.model());
                lemma_log_of_split(chain, i + 1);
            }
            sum = Counters {
                size_bytes: sum.size_bytes + segment.size_bytes as u64,
                messages_count: sum.messages_count + (segment.current_offset
                    - segment.start_offset),
            };
            i += 1;
        }
        proof {
            assert(chain.take(segments@.len() as int) =~= chain);
        }
        sum
    }

    /// Deletes the `count` oldest segments, but never the open one, and
    /// takes their bytes and messages off the counters. Returns the deleted
    /// segments, whose files are to be removed, and what they held.
    #[verifier::rlimit(30)]
    pub fn delete_segments(&mut self, count: usize) -> (removed: (Vec<Segment>, Counters))
        requires
            old(self).wf(),
        ensures
            final(self).wf(),
            ({
                let d = if count < old(self).segments@.len() {
                    count as int
                } else {
                    old(self).segments@.len() - 1
                };
                &&& removed.0@ == old(self).segments@.take(d)
                &&& final(self).segments@ == old(self).segments@.skip(d)
                &&& removed.1.size_bytes == size_of(old(self).model().take(d))
                &&& removed.1.messages_count == log_of(old(self).model().take(d)).len()
                &&& final(self).messages() == old(self).messages().skip(
                    removed.1.messages_count as int,
                )
            }),
            final(self).counters.size_bytes == old(self).counters.size_bytes
                - removed.1.size_bytes,
            final(self).counters.messages_count == old(self).counters.messages_count
                - removed.1.messages_count,
            old(self).cached_count() <= final(self).messages().len() ==> final(self).cache == old(self).cache,
            old(self).cached_count() > final(self).messages().len() ==> final(self).cached_count()
                == 0,
            *final(self) == (Partition {
                segments: final(self).segments,
                counters: final(self).counters,
                cache: final(self).cache,
                ..*old(self)
            }),
    {
        let total = self.segments.len();
        let d = if count < total {
            count
        } else {
            total - 1
        };
        proof {
            self.lemma_head(d as int);
        }
        let mut removed = self.segments.split_off(d);
        std::mem::swap(&mut self.segments, &mut removed);
        let released = self.weigh(&removed);
        self.counters = Counters {
            size_bytes: self.counters.size_bytes - released.size_bytes,
            messages_count: self.counters.messages_count - released.messages_count,
        };
        proof {
            old(self).lemma_skipped(*self, d as int);
        }
        self.trim_cache();
        (removed, released)
    }

    /// The first `d` segments of a partition are segments of it, and hold
    /// no more than the partition does.
    proof fn lemma_head(&self, d: int)
        requires
            self.chain_wf(),
            0 <= d < self.segments@.len(),
        ensures
            forall|i: int| 0 <= i < d ==> self.owns(#[trigger] self.segments@.take(d)[i]),
            models(self.segments@.take(d)) == self.model().take(d),
            size_of(self.model().take(d)) <= self.counters.size_bytes,
            log_of(self.model().take(d)).len() <= self.counters.messages_count,
    {
        lemma_chain_skip(self.model(), d);
        assert(models(self.segments@.take(d)) =~= self.model().take(d));
        assert forall|i: int| 0 <= i < d implies self.owns(#[trigger] self.segments@.take(d)[i]) by {
            assert(self.segments@.take(d)[i] == self.segments@[i]);
            assert(self.owns(self.segments@[i]));
        }
    }

    /// A partition that has lost its first `d` segments, none of them the
    /// open one, and counts what is left, is well-formed but for its
    /// cache, and holds the log without the messages of those segments;
    /// what the cache holds is still the end of that log, as far as the
    /// log reaches.
    proof fn lemma_skipped(&self, after: Partition, d: int)
        requires
            self.wf(),
            0 <= d < self.segments@.len(),
            after.segments@ == self.segments@.skip(d),
            after.counters.size_bytes == self.counters.size_bytes - size_of(self.model().take(d)),
            after.counters.messages_count == self.counters.messages_count - log_of(
                self.model().take(d),
            ).len(),
            after == (Partition { segments: after.segments, counters: after.counters, ..*self }),
        ensures
            after.chain_wf(),
            after.messages() == self.messages().skip(log_of(self.model().take(d)).len() as int),
            after.messages().len() == self.messages().len() - log_of(self.model().take(d)).len(),
            after.cache matches Some(cached) ==> cached@.len() <= after.config.cache.messages_amount
                && (cached@.len() <= after.messages().len() ==> views(cached@)
                == after.messages().skip(after.messages().len() - cached@.len())),
    {
        let chain = self.model();
        let log = self.messages();
        let gone = log_of(chain.take(d)).len() as int;
        lemma_chain_skip(chain, d);
        assert(after.model() =~= chain.skip(d));
        let rest = after.messages();
        lemma_rise_parts(log, gone);
        assert forall|i: int| 0 <= i < after.segments@.len() implies after.owns(
            #[trigger] after.segments@[i],
        ) by {
            assert(after.segments@[i] == self.segments@[i + d]);
            assert(self.owns(self.segments@[i + d]));
        }
        assert(chain.skip(d).last() == chain.last());
        if rest.len() > 0 {
            assert(rest.last() == log.last());
        }
        if self.cache is Some {
            let cached = self.cache->0@;
            if cached.len() <= rest.len() {
                assert(log.skip(log.len() - cached.len()) =~= rest.skip(rest.len() - cached.len()));
            }
        }
    }

    /// Empties the cache where it holds more than the log does.
    fn trim_cache(&mut self)
        requires
            old(self).chain_wf(),
            old(self).cache is Some <==> old(self).config.cache.enabled,
            old(self).cache matches Some(cached) ==> cached@.len()
                <= old(self).config.cache.messages_amount && (cached@.len()
                <= old(self).messages().len() ==> views(cached@) == old(self).messages().skip(
                old(self).messages().len() - cached@.len(),
            )),
        ensures
            final(self).wf(),
            old(self).cached_count() <= old(self).messages().len() ==> final(self).cache == old(self).cache,
            old(self).cached_count() > old(self).messages().len() ==> final(self).cached_count()
                == 0,
            *final(self) == (Partition { cache: final(self).cache, ..*old(self) }),
    {
        proof {
            lemma_linked_log(self.model());
        }
        let held = self.current_offset - self.segments[0].start_offset;
        let ghost log = self.messages();
        match &mut self.cache {
            None => {},
            Some(cached) => {
                if cached.len() as u64 > held {
                    cached.clear();
                    assert(views(cached@) =~= log.skip(log.len() - cached@.len()));
                }
            },
        }
    }

    /// Deletes the sealed segments whose newest message is no later than
    /// `cutoff`. The open segment stays, whatever its age. Returns the
    /// deleted segments and what they held.
    pub fn delete_segments_older_than(&mut self, cutoff: u64) -> (removed: (Vec<Segment>, Counters))
        requires
            old(self).wf(),
        ensures
            final(self).wf(),
            ({
                let d = stale(old(self).model(), cutoff);
                &&& 0 <= d < old(self).segments@.len()
                &&& removed.0@ == old(self).segments@.take(d)
                &&& final(self).segments@ == old(self).segments@.skip(d)
                &&& removed.1.size_bytes == size_of(old(self).model().take(d))
                &&& removed.1.messages_count == log_of(old(self).model().take(d)).len()
                &&& final(self).messages() == old(self).messages().skip(
                    removed.1.messages_count as int,
                )
            }),
            final(self).counters.size_bytes == old(self).counters.size_bytes
                - removed.1.size_bytes,
            final(self).counters.messages_count == old(self).counters.messages_count
                - removed.1.messages_count,
            old(self).cached_count() <= final(self).messages().len() ==> final(self).cache == old(self).cache,
            old(self).cached_count() > final(self).messages().len() ==> final(self).cached_count()
                == 0,
            *final(self) == (Partition {
                segments: final(self).segments,
                counters: final(self).counters,
                cache: final(self).cache,
                ..*old(self)
            }),
    {
        let count = self.count_stale(cutoff);
        self.delete_segments(count)
    }
    /// Deletes every message: the partition is as it was when created, with
    /// one empty segment at offset 0, no consumer and an empty cache.
    /// Returns the deleted segments, whose files are to be removed, and
    /// what they held.
    pub fn purge(&mut self) -> (removed: (Vec<Segment>, Counters))
        requires
            old(self).wf(),
        ensures
            final(self).wf(),
            removed.0@ == old(self).segments@,
            removed.1 == old(self).counters,
            final(self).segments@.len() == 1,
            final(self).first_offset() == 0,
            final(self).messages() == Seq::<MessageView>::empty(),
            final(self).consumer_offsets@.len() == 0,
            final(self).cache matches Some(cached) ==> cached@.len() == 0,
            *final(self) == (Partition {
                segments: final(self).segments,
                cache: final(self).cache,
                consumer_offsets: final(self).consumer_offsets,
                current_offset: 0,
                newest_timestamp: 0,
                counters: Counters { size_bytes: 0, messages_count: 0 },
                ..*old(self)
            }),
    {
        let released = self.counters;
        let fresh = Segment::create(
            self.stream_id,
            self.topic_id,
            self.id,
            0,
            share(&self.config),
            self.message_expiry,
        );
        let mut removed: Vec<Segment> = Vec::new();
        removed.push(fresh);
        std::mem::swap(&mut self.segments, &mut removed);
        self.current_offset = 0;
        self.newest_timestamp = 0;
        self.counters = Counters { size_bytes: 0, messages_count: 0 };
        self.consumer_offsets = Vec::new();
        self.cache = if self.config.cache.enabled {
            Some(Vec::new())
        } else {
            None
        };
        proof {
            let chain = self.model();
            assert(chain.drop_last() =~= Seq::<SegmentModel>::empty());
            assert(log_of(chain.drop_last()) =~= Seq::<MessageView>::empty());
            assert(log_of(chain) =~= Seq::<MessageView>::empty());
            lemma_rise(log_of(chain));
            assert(size_of(chain.drop_last()) == 0);
            assert(self.messages().skip(0) =~= views(Seq::<Message>::empty()));
        }
        (removed, released)
    }
}

/// The sum of the sizes that the segments record of their logs.
pub open spec fn sum_of_sizes(segments: Seq<Segment>) -> nat
    decreases segments.len(),
{
    if segments.len() == 0 {
        0
    } else {
        sum_of_sizes(segments.drop_last()) + segments.last().size_bytes as nat
    }
}

/// The number of messages that the segments hold together.
pub open spec fn sum_of_messages(segments: Seq<Segment>) -> nat
    decreases segments.len(),
{
    if segments.len() == 0 {
        0
    } else {
        sum_of_messages(segments.drop_last()) + segments.last().messages().len()
    }
}

impl Partition {
    /// Whether a read from `offset` is served from the cache: the cache is
    /// enabled and the message at `offset` is among the newest messages
    /// that it holds.
    pub open spec fn cache_covers(&self, offset: u64) -> bool {
        self.cache is Some && self.current_offset - offset <= self.cached_count()
    }

    /// The offsets of a partition's messages count up from its first
    /// offset without a gap, and its next offset is the one behind them.
    /// Of two successive messages the second has the next offset and a
    /// timestamp that is no earlier.
    pub proof fn lemma_log_in_order(&self)
        requires
            self.wf(),
        ensures
            offsets_from(self.messages(), self.first_offset() as int),
            self.first_offset() + self.messages().len() == self.current_offset,
            timestamps_rise(self.messages()),
            forall|i: int, j: int|
                0 <= i && j == i + 1 && j < self.messages().len() ==> (
                #[trigger] self.messages()[i]).offset + 1 == (#[trigger] self.messages()[j]).offset
                    && self.messages()[i].timestamp <= self.messages()[j].timestamp,
    {
        lemma_linked_log(self.model());
        lemma_rise(self.messages());
    }

    /// After messages were appended to a partition whose next offset was
    /// `next`, the offsets of the appended messages are `next`, `next + 1`
    /// and so on, one for each message and in their order.
    pub proof fn lemma_appended_offsets(
        before: Seq<MessageView>,
        appended: Seq<MessageView>,
        next: u64,
        timestamp: u64,
    )
        requires
            next + appended.len() <= u64::MAX,
        ensures
            offsets_from(stamped_all(appended, next as int, timestamp), next as int),
            forall|k: int|
                0 <= k < appended.len() ==> (#[trigger] (before + stamped_all(
                    appended,
                    next as int,
                    timestamp,
                ))[before.len() + k]).offset == next + k,
    {
        let stamped = stamped_all(appended, next as int, timestamp);
        assert forall|k: int| 0 <= k < appended.len() implies (#[trigger] (before
            + stamped)[before.len() + k]).offset == next + k by {
            assert((before + stamped)[before.len() + k] == stamped[k]);
        }
    }

    /// The sizes of the segments add up to the partition's byte counter,
    /// and their messages to its message counter.
    pub proof fn lemma_counters_add_up(&self)
        requires
            self.wf(),
        ensures
            sum_of_sizes(self.segments@) == self.counters.size_bytes,
            sum_of_messages(self.segments@) == self.counters.messages_count,
            self.counters.size_bytes == log_bytes(self.messages()).len(),
            self.counters.messages_count == self.messages().len(),
    {
        lemma_size_of_log(self.model());
        self.lemma_sums(self.segments@.len() as int);
        assert(self.segments@.take(self.segments@.len() as int) =~= self.segments@);
        assert(self.model().take(self.segments@.len() as int) =~= self.model());
    }

    /// A record takes at least 45 bytes, so the byte counter is at least 45
    /// times the message counter.
    pub proof fn lemma_counters_bound(&self)
        requires
            self.wf(),
        ensures
            45 * self.counters.messages_count <= self.counters.size_bytes,
    {
        lemma_size_of_log(self.model());
        lemma_log_bytes_len(self.messages());
    }

    /// Loading the files that a partition has persisted gives its messages
    /// back: the segments in `files`, which are those of the partition's
    /// segments, continue each other, hold the partition's log and its
    /// bytes, and no load cuts anything off them.
    pub proof fn lemma_load_round_trip(&self, files: Seq<SegmentFiles>)
        requires
            self.wf(),
            files.len() == self.segments@.len(),
            forall|i: int|
                0 <= i < files.len() ==> (#[trigger] files[i]).start_offset
                    == self.segments@[i].start_offset && files[i].storage@
                    == self.segments@[i].storage@,
        ensures
            joined(chain_in(files)),
            log_of(chain_in(files)) == self.messages(),
            size_of(chain_in(files)) == self.counters.size_bytes,
            !any_cut(files),
    {
        let chain = chain_in(files);
        let model = self.model();
        assert forall|i: int| 0 <= i < chain.len() implies (#[trigger] chain[i]).messages
            == model[i].messages && chain[i].start_offset == model[i].start_offset && !cut_short(
            files[i],
        ) by {
            let segment = self.segments@[i];
            assert(self.owns(segment));
            assert(files[i].storage@ == segment.storage@);
            segment.lemma_load_round_trip();
        }
        lemma_log_of_messages(chain, model);
        assert forall|i: int, j: int|
            #![trigger chain[i], chain[j]]
            0 <= i && j == i + 1 && j < chain.len() implies continues(chain[i], chain[j]) by {
            assert(chain[i].messages == model[i].messages);
            assert(chain[j].start_offset == model[j].start_offset);
            assert(model[i].start_offset + model[i].messages.len() == model[j].start_offset);
            assert(model[i].messages.len() > 0);
        }
        if any_cut(files) {
            let k = choose|k: int| 0 <= k < files.len() && cut_short(#[trigger] files[k]);
            assert(chain[k].messages == model[k].messages);
        }
    }

    /// The sums over the first `k` segments are those of their models.
    proof fn lemma_sums(&self, k: int)
        requires
            self.wf(),
            0 <= k <= self.segments@.len(),
        ensures
            sum_of_sizes(self.segments@.take(k)) == size_of(self.model().take(k)),
            sum_of_messages(self.segments@.take(k)) == log_of(self.model().take(k)).len(),
        decreases k,
    {
        if k > 0 {
            self.lemma_sums(k - 1);
            let segment = self.segments@[k - 1];
            assert(self.owns(segment));
            segment.lemma_wf();
            assert(self.segments@.take(k).drop_last() =~= self.segments@.take(k - 1));
            assert(self.model().take(k).drop_last() =~= self.model().take(k - 1));
            assert(self.segments@.take(k).last() == segment);
            assert(self.model().take(k).last() == segment.model());
        } else {
            assert(self.segments@.take(0) =~= Seq::<Segment>::empty());
            assert(self.model().take(0) =~= Seq::<SegmentModel>::empty());
        }
    }
}

} // verus!
