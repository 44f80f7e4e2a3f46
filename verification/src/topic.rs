//! A topic: a named group of partitions within a stream.
//!
//! A topic owns its partitions and carries the bytes and messages of all of
//! them. Retention works on a topic: by age on the sealed segments of each
//! partition, by size on the oldest sealed segments of all of them.

use std::sync::Arc;
use vstd::prelude::*;
use crate::chain::{joined, log_of, opened, placed_all, size_of, stale};
use crate::configs::{share, SystemConfig};
use crate::counters::{lemma_total_push, lemma_total_update, sums_up, total_bytes, total_messages};
use crate::error::LogError;
use crate::log::{lemma_log_bytes_len, log_bytes};
use crate::lookup::{distinct, first_index, lemma_first_index, lemma_first_index_found};
use crate::message::{Message, MessageView};
use crate::partition::{any_cut, chain_in, later, stamped_all, Partition};
use crate::segment::{views, Counters, Segment, SegmentFiles};

verus! {

pub struct Topic {
    pub stream_id: u32,
    pub id: u32,
    pub name: String,
    /// The partitions, in the order of their creation; their ids differ.
    pub partitions: Vec<Partition>,
    /// Bytes and messages that the partitions hold together.
    pub counters: Counters,
    pub message_expiry: Option<u32>,
    /// Bytes that the topic may hold before its oldest sealed segments are
    /// deleted; 0 for no limit.
    pub max_topic_size: u64,
    pub config: Arc<SystemConfig>,
    pub created_at: u64,
}

/// The ids of `partitions`, in order.
pub open spec fn partition_ids(partitions: Seq<Partition>) -> Seq<u32> {
    Seq::new(partitions.len(), |i: int| partitions[i].id)
}

/// The counters of `partitions`, in order.
pub open spec fn partition_counters(partitions: Seq<Partition>) -> Seq<Counters> {
    Seq::new(partitions.len(), |i: int| partitions[i].counters)
}

/// The files of one partition of a topic, as read from disk.
#[derive(Debug)]
pub struct PartitionFiles {
    pub partition_id: u32,
    /// The files of the partition's segments, in the order of their first
    /// offsets.
    pub segments: Vec<SegmentFiles>,
}

/// The ids of the partitions that `files` hold, in order.
pub open spec fn file_ids(files: Seq<PartitionFiles>) -> Seq<u32> {
    Seq::new(files.len(), |i: int| files[i].partition_id)
}

/// The bytes of the logs that `files` hold together.
pub open spec fn held_bytes(files: Seq<PartitionFiles>) -> nat
    decreases files.len(),
{
    if files.len() == 0 {
        0
    } else {
        held_bytes(files.drop_last()) + size_of(chain_in(files.last().segments@))
    }
}

/// Whether a topic can be built from `files`: the partitions' ids differ,
/// the segments of each partition continue each other, and the bytes of
/// all of them fit a `u64`.
pub open spec fn loadable(files: Seq<PartitionFiles>) -> bool {
    &&& distinct(file_ids(files))
    &&& forall|k: int| 0 <= k < files.len() ==> joined(chain_in((#[trigger] files[k]).segments@))
    &&& held_bytes(files) <= u64::MAX
}

/// Whether a load cuts bytes off a file of one of `files`.
pub open spec fn any_cut_in(files: Seq<PartitionFiles>) -> bool {
    exists|k: int| 0 <= k < files.len() && any_cut((#[trigger] files[k]).segments@)
}

/// What building a topic from the first `k + 1` of `files` adds to what
/// building it from the first `k` gives.
pub proof fn lemma_files_step(files: Seq<PartitionFiles>, k: int)
    requires
        0 <= k < files.len(),
    ensures
        held_bytes(files.take(k + 1)) == held_bytes(files.take(k)) + size_of(
            chain_in(files[k].segments@),
        ),
        held_bytes(files.take(k + 1)) <= held_bytes(files),
        any_cut_in(files.take(k + 1)) <==> any_cut_in(files.take(k)) || any_cut(files[k].segments@),
        file_ids(files.take(k + 1)) == file_ids(files.take(k)).push(files[k].partition_id),
        loadable(files) ==> distinct(file_ids(files.take(k + 1))) && joined(
            chain_in(files[k].segments@),
        ),
    decreases files.len() - k,
{
    let shorter = files.take(k);
    let longer = files.take(k + 1);
    assert(longer.drop_last() =~= shorter);
    assert(longer.last() == files[k]);
    assert(file_ids(longer) =~= file_ids(shorter).push(files[k].partition_id));
    if k + 1 < files.len() {
        lemma_files_step(files, k + 1);
    } else {
        assert(longer =~= files);
    }
    if any_cut_in(shorter) {
        let w = choose|w: int| 0 <= w < shorter.len() && any_cut((#[trigger] shorter[w]).segments@);
        assert(longer[w] == shorter[w]);
    }
    if any_cut(files[k].segments@) {
        assert(longer[k] == files[k]);
    }
    if any_cut_in(longer) {
        let w = choose|w: int| 0 <= w < longer.len() && any_cut((#[trigger] longer[w]).segments@);
        if w < k {
            assert(shorter[w] == longer[w]);
        } else {
            assert(longer[w] == files[k]);
        }
    }
    if loadable(files) {
        assert forall|i: int, j: int| 0 <= i < j < file_ids(longer).len() implies file_ids(
            longer,
        )[i] != file_ids(longer)[j] by {
            assert(file_ids(files)[i] != file_ids(files)[j]);
        }
    }
}

/// The newest timestamp that has outlived `expiry` seconds at `now`, both
/// times in microseconds: a message expires exactly if its timestamp is no
/// later. `None` where nothing expires.
pub open spec fn expiry_cutoff(expiry: Option<u32>, now: u64) -> Option<u64> {
    match expiry {
        Some(seconds) if seconds * 1_000_000 <= now => Some((now - seconds * 1_000_000) as u64),
        _ => None,
    }
}

/// The segments that retention by age deletes from `partitions`: of each
/// partition, in order, the sealed segments whose newest message is no
/// later than `cutoff`, oldest first; none without a cutoff.
pub open spec fn expired_segments(partitions: Seq<Partition>, cutoff: Option<u64>) -> Seq<Segment>
    decreases partitions.len(),
{
    if partitions.len() == 0 || cutoff is None {
        Seq::empty()
    } else {
        expired_segments(partitions.drop_last(), cutoff) + partitions.last().segments@.take(
            stale(partitions.last().model(), cutoff->0),
        )
    }
}

/// Without a cutoff no segment is deleted, and no partition changes.
pub proof fn lemma_none_expired(partitions: Seq<Partition>)
    ensures
        expired_segments(partitions, None) == Seq::<Segment>::empty(),
        expired_segments(Seq::<Partition>::empty(), None) == Seq::<Segment>::empty(),
        forall|i: int|
            0 <= i < partitions.len() ==> (#[trigger] partitions[i]).segments@.skip(0)
                == partitions[i].segments@,
        forall|cutoff: u64|
            expired_segments(partitions.take(0), Some(cutoff)) == Seq::<Segment>::empty(),
{
    assert forall|i: int| 0 <= i < partitions.len() implies (#[trigger] partitions[i]).segments@.skip(
        0,
    ) == partitions[i].segments@ by {
        assert(partitions[i].segments@.skip(0) =~= partitions[i].segments@);
    }
}

/// Whether `partitions[p]` holds the oldest sealed segment of all: it holds
/// a sealed segment, none of the others starts at an earlier offset, and
/// of those that start at the same offset it is the first.
pub open spec fn holds_oldest_sealed(partitions: Seq<Partition>, p: int) -> bool {
    &&& 0 <= p < partitions.len()
    &&& partitions[p].segments@.len() > 1
    &&& forall|i: int|
        0 <= i < partitions.len() && (#[trigger] partitions[i]).segments@.len() > 1
            ==> partitions[p].first_offset() <= partitions[i].first_offset()
    &&& forall|i: int|
        0 <= i < p && (#[trigger] partitions[i]).segments@.len() > 1 ==> partitions[p].first_offset()
            < partitions[i].first_offset()
}

/// Whether no partition holds a sealed segment.
pub open spec fn none_sealed(partitions: Seq<Partition>) -> bool {
    forall|i: int| 0 <= i < partitions.len() ==> (#[trigger] partitions[i]).segments@.len() <= 1
}

impl Topic {
    /// A partition of this topic: well-formed, under the topic's ids,
    /// configuration and expiry.
    pub open spec fn holds(&self, partition: Partition) -> bool {
        &&& partition.wf()
        &&& partition.stream_id == self.stream_id
        &&& partition.topic_id == self.id
        &&& partition.config == self.config
        &&& partition.message_expiry == self.message_expiry
    }

    /// The topic's invariant.
    pub open spec fn wf(&self) -> bool {
        &&& self.config.valid()
        &&& forall|i: int| 0 <= i < self.partitions@.len() ==> self.holds(#[trigger] self.partitions@[i])
        &&& distinct(partition_ids(self.partitions@))
        &&& sums_up(self.counters, partition_counters(self.partitions@))
    }

    /// Where the partition `partition_id` stands among the partitions; their
    /// number where there is none.
    pub open spec fn index_of(&self, partition_id: u32) -> int {
        first_index(partition_ids(self.partitions@), partition_id)
    }

    /// A topic with `partitions_count` empty partitions, numbered from 1.
    pub fn create(
        stream_id: u32,
        topic_id: u32,
        name: String,
        partitions_count: u32,
        config: Arc<SystemConfig>,
        message_expiry: Option<u32>,
        max_topic_size: u64,
        created_at: u64,
    ) -> (result: Result<Topic, LogError>)
        ensures
            result is Ok <==> config.valid(),
            result matches Err(error) ==> error == LogError::ConfigError,
            result matches Ok(topic) ==> {
                &&& topic.wf()
                &&& topic.stream_id == stream_id
                &&& topic.id == topic_id
                &&& topic.name == name
                &&& topic.config == config
                &&& topic.message_expiry == message_expiry
                &&& topic.max_topic_size == max_topic_size
                &&& topic.created_at == created_at
                &&& topic.counters == (Counters { size_bytes: 0, messages_count: 0 })
                &&& topic.partitions@.len() == partitions_count
                &&& forall|i: int|
                    0 <= i < partitions_count ==> (#[trigger] topic.partitions@[i]).id == i + 1
                        && topic.partitions@[i].messages() == Seq::<MessageView>::empty()
                        && topic.partitions@[i].current_offset == 0
            },
    {
        match config.validate() {
            Err(error) => {
                return Err(error);
            },
            Ok(()) => {},
        }
        let mut topic = Topic {
            stream_id,
            id: topic_id,
            name,
            partitions: Vec::new(),
            counters: Counters { size_bytes: 0, messages_count: 0 },
            message_expiry,
            max_topic_size,
            config,
            created_at,
        };
        let mut made: u32 = 0;
        while made < partitions_count
            invariant
                made <= partitions_count,
                topic.wf(),
                topic.partitions@.len() == made,
                topic.counters == (Counters { size_bytes: 0, messages_count: 0 }),
                forall|i: int|
                    0 <= i < made ==> (#[trigger] topic.partitions@[i]).id == i + 1
                        && topic.partitions@[i].messages() == Seq::<MessageView>::empty()
                        && topic.partitions@[i].current_offset == 0
                        && topic.partitions@[i].counters == (Counters {
                        size_bytes: 0,
                        messages_count: 0,
                    }),
                topic.stream_id == stream_id,
                topic.id == topic_id,
                topic.name == name,
                topic.config == config,
                topic.message_expiry == message_expiry,
                topic.max_topic_size == max_topic_size,
                topic.created_at == created_at,
            decreases partitions_count - made,
        {
            let ghost before = topic.partitions@;
            match Partition::create(
                stream_id,
                topic_id,
                made + 1,
                share(&topic.config),
                message_expiry,
                created_at,
            ) {
                Ok(partition) => {
                    proof {
                        lemma_total_push(partition_counters(before), partition.counters);
                        assert(partition_counters(before.push(partition)) =~= partition_counters(
                            before,
                        ).push(partition.counters));
                    }
                    topic.partitions.push(partition);
                },
                Err(_) => unreached(),
            }
            made = made + 1;
            proof {
                let ids = partition_ids(topic.partitions@);
                assert forall|i: int, j: int| 0 <= i < j < ids.len() implies ids[i] != ids[j] by {
                    assert(topic.partitions@[i].id == i + 1);
                    assert(topic.partitions@[j].id == j + 1);
                }
                assert forall|i: int| 0 <= i < topic.partitions@.len() implies topic.holds(
                    #[trigger] topic.partitions@[i],
                ) by {
                    if i < before.len() {
                        assert(topic.partitions@[i] == before[i]);
                    }
                }
            }
        }
        Ok(topic)
    }

    /// Whether this topic is what `files` hold: one partition for each of
    /// them, in their order, with the chain and the log that
    /// `Partition::load` builds from its files.
    pub open spec fn holds_files(&self, files: Seq<PartitionFiles>) -> bool {
        &&& self.partitions@.len() == files.len()
        &&& forall|k: int|
            0 <= k < files.len() ==> {
                let partition = #[trigger] self.partitions@[k];
                let chain = chain_in(files[k].segments@);
                &&& partition.id == files[k].partition_id
                &&& partition.model() == opened(chain, self.config.segment.size)
                &&& partition.messages() == log_of(chain)
                &&& partition.counters.size_bytes == size_of(chain)
                &&& partition.consumer_offsets@.len() == 0
                &&& partition.created_at == self.created_at
            }
        &&& self.counters.size_bytes == held_bytes(files)
    }

    /// Builds a topic from the files of its partitions, each partition as
    /// `Partition::load` builds it. The second value returned says whether
    /// a load has cut bytes off a file.
    ///
    /// The files are refused with `ConfigError` where the configuration is
    /// invalid. Else they are refused where they are not loadable: with
    /// `AlreadyExists` only where two partitions have one id, with
    /// `CorruptedIndex` only where the segments of a partition do not
    /// continue each other, with `TooLarge` only where the bytes do not
    /// fit.
    #[verifier::rlimit(30)]
    pub fn load(
        stream_id: u32,
        topic_id: u32,
        name: String,
        config: Arc<SystemConfig>,
        message_expiry: Option<u32>,
        max_topic_size: u64,
        created_at: u64,
        files: Vec<PartitionFiles>,
    ) -> (result: Result<(Topic, bool), LogError>)
        ensures
            result is Ok <==> config.valid() && loadable(files@),
            result matches Err(error) ==> {
                &&& error == LogError::ConfigError <==> !config.valid()
                &&& error == LogError::AlreadyExists ==> !distinct(file_ids(files@))
                &&& error == LogError::CorruptedIndex ==> exists|k: int|
                    0 <= k < files@.len() && !joined(chain_in((#[trigger] files@[k]).segments@))
                &&& error == LogError::TooLarge ==> held_bytes(files@) > u64::MAX
                &&& error == LogError::ConfigError || error == LogError::AlreadyExists || error
                    == LogError::CorruptedIndex || error == LogError::TooLarge
            },
            result matches Ok(built) ==> {
                let topic = built.0;
                &&& topic.wf()
                &&& topic.holds_files(files@)
                &&& topic.stream_id == stream_id
                &&& topic.id == topic_id
                &&& topic.name == name
                &&& topic.config == config
                &&& topic.message_expiry == message_expiry
                &&& topic.max_topic_size == max_topic_size
                &&& topic.created_at == created_at
                &&& built.1 <==> any_cut_in(files@)
            },
    {
        match config.validate() {
            Err(error) => {
                return Err(error);
            },
            Ok(()) => {},
        }
        let mut topic = Topic {
            stream_id,
            id: topic_id,
            name,
            partitions: Vec::new(),
            counters: Counters { size_bytes: 0, messages_count: 0 },
            message_expiry,
            max_topic_size,
            config,
            created_at,
        };
        let ghost all = files@;
        let mut rest = files;
        let mut recovered = false;
        let total = rest.len();
        let mut k: usize = 0;
        proof {
            assert(all.skip(0) =~= all);
            assert(all.take(0) =~= Seq::<PartitionFiles>::empty());
            assert(file_ids(all.take(0)) =~= partition_ids(topic.partitions@));
        }
        while k < total
            invariant
                all == files@,
                k <= total == all.len(),
                rest@ == all.skip(k as int),
                topic.wf(),
                topic.holds_files(all.take(k as int)),
                partition_ids(topic.partitions@) == file_ids(all.take(k as int)),
                forall|i: int| 0 <= i < k ==> joined(chain_in((#[trigger] all[i]).segments@)),
                recovered <==> any_cut_in(all.take(k as int)),
                topic.stream_id == stream_id,
                topic.id == topic_id,
                topic.name == name,
                topic.config == config,
                topic.message_expiry == message_expiry,
                topic.max_topic_size == max_topic_size,
                topic.created_at == created_at,
            decreases total - k,
        {
            let ghost before = topic.partitions@;
            let file = rest.remove(0);
            proof {
                assert(file == all[k as int]);
                assert(rest@ =~= all.skip(k + 1));
                lemma_files_step(all, k as int);
                lemma_first_index_found(partition_ids(before), file.partition_id);
            }
            if topic.find_partition(file.partition_id).is_some() {
                proof {
                    let at = topic.index_of(file.partition_id);
                    assert(file_ids(all)[at] == file_ids(all.take(k as int))[at]);
                    assert(file_ids(all)[k as int] == file.partition_id);
                }
                return Err(LogError::AlreadyExists);
            }
            let loaded = Partition::load(
                stream_id,
                topic_id,
                file.partition_id,
                share(&topic.config),
                message_expiry,
                created_at,
                file.segments,
            );
            let (partition, cut) = match loaded {
                Ok(built) => built,
                Err(error) => {
                    return Err(error);
                },
            };
            if partition.counters.size_bytes > u64::MAX - topic.counters.size_bytes {
                return Err(LogError::TooLarge);
            }
            proof {
                partition.lemma_counters_bound();
                lemma_total_push(partition_counters(before), partition.counters);
                assert(partition_counters(before.push(partition)) =~= partition_counters(
                    before,
                ).push(partition.counters));
                assert(partition_ids(before.push(partition)) =~= partition_ids(before).push(
                    partition.id,
                ));
                let ids = partition_ids(before.push(partition));
                assert forall|i: int, j: int| 0 <= i < j < ids.len() implies ids[i] != ids[j] by {
                    if j < before.len() {
                        assert(partition_ids(before)[i] != partition_ids(before)[j]);
                    } else {
                        assert(partition_ids(before)[i] != file.partition_id);
                    }
                }
            }
            topic.counters = Counters {
                size_bytes: topic.counters.size_bytes + partition.counters.size_bytes,
                messages_count: topic.counters.messages_count + partition.counters.messages_count,
            };
            topic.partitions.push(partition);
            if cut {
                recovered = true;
            }
            proof {
                assert forall|i: int| 0 <= i < topic.partitions@.len() implies topic.holds(
                    #[trigger] topic.partitions@[i],
                ) by {
                    if i < before.len() {
                        assert(topic.partitions@[i] == before[i]);
                    }
                }
                assert forall|i: int| 0 <= i < k + 1 implies {
                    let partition = #[trigger] topic.partitions@[i];
                    let chain = chain_in(all.take(k + 1)[i].segments@);
                    &&& partition.id == all.take(k + 1)[i].partition_id
                    &&& partition.model() == opened(chain, topic.config.segment.size)
                    &&& partition.messages() == log_of(chain)
                    &&& partition.counters.size_bytes == size_of(chain)
                    &&& partition.consumer_offsets@.len() == 0
                    &&& partition.created_at == topic.created_at
                } by {
                    if i < k {
                        assert(topic.partitions@[i] == before[i]);
                        assert(all.take(k + 1)[i] == all.take(k as int)[i]);
                    }
                }
            }
            k = k + 1;
        }
        proof {
            assert(all.take(total as int) =~= all);
            assert forall|i: int, j: int| 0 <= i < j < file_ids(all).len() implies file_ids(
                all,
            )[i] != file_ids(all)[j] by {
                assert(partition_ids(topic.partitions@)[i] != partition_ids(topic.partitions@)[j]);
            }
        }
        Ok((topic, recovered))
    }

    /// The index of the partition `partition_id`.
    pub fn find_partition(&self, partition_id: u32) -> (found: Option<usize>)
        ensures
            found is Some <==> self.index_of(partition_id) < self.partitions@.len(),
            found matches Some(at) ==> at == self.index_of(partition_id)
                && self.partitions@[at as int].id == partition_id,
    {
        let total = self.partitions.len();
        let mut at: usize = 0;
        while at < total && self.partitions[at].id != partition_id
            invariant
                at <= total == self.partitions@.len(),
                forall|k: int| 0 <= k < at ==> partition_ids(self.partitions@)[k] != partition_id,
            decreases total - at,
        {
            at += 1;
        }
        proof {
            if at < total {
                assert(partition_ids(self.partitions@)[at as int] == partition_id);
            }
            lemma_first_index(partition_ids(self.partitions@), partition_id, at as int);
        }
        if at < total {
            Some(at)
        } else {
            None
        }
    }

    /// The partition `partition_id`, to read from.
    pub fn get_partition(&self, partition_id: u32) -> (result: Result<&Partition, LogError>)
        requires
            self.wf(),
        ensures
            result is Ok <==> self.index_of(partition_id) < self.partitions@.len(),
            result matches Err(error) ==> error == LogError::NotFound,
            result matches Ok(partition) ==> *partition == self.partitions@[self.index_of(
                partition_id,
            )] && partition.id == partition_id && partition.wf(),
    {
        match self.find_partition(partition_id) {
            Some(at) => {
                assert(self.holds(self.partitions@[at as int]));
                Ok(&self.partitions[at])
            },
            None => Err(LogError::NotFound),
        }
    }

    /// Whether the topic takes `messages` for the partition at `at`: the
    /// partition accepts them, and the topic's byte counter stays below
    /// the largest `u64`.
    pub open spec fn accepts(&self, at: int, messages: Seq<MessageView>) -> bool {
        &&& self.partitions@[at].accepts(messages)
        &&& self.counters.size_bytes + log_bytes(messages).len() <= u64::MAX
    }

    /// What an append to the partition `partition_id` returns where it is
    /// refused: `NotFound` where the topic has no such partition,
    /// `TooLarge` where it does not take the messages.
    pub open spec fn refusal(&self, partition_id: u32, messages: Seq<MessageView>) -> Option<
        LogError,
    > {
        let at = self.index_of(partition_id);
        if at >= self.partitions@.len() {
            Some(LogError::NotFound)
        } else if !self.accepts(at, messages) {
            Some(LogError::TooLarge)
        } else {
            None
        }
    }

    /// Whether `after` is this topic with `messages` appended at `now` to
    /// the partition `partition_id`, as `Partition::append_messages`
    /// appends them, and counted.
    pub open spec fn grows_to(
        &self,
        after: Topic,
        partition_id: u32,
        messages: Seq<MessageView>,
        now: u64,
    ) -> bool {
        let at = self.index_of(partition_id);
        let p = self.partitions@[at];
        let q = after.partitions@[at];
        let stamped = stamped_all(messages, p.current_offset as int, later(p.newest_timestamp, now));
        &&& after.partitions@ == self.partitions@.update(at, q)
        &&& q.messages() == p.messages() + stamped
        &&& q.model() == placed_all(
            p.model(),
            stamped,
            p.config.segment.size,
            p.message_expiry,
            now,
        )
        &&& q.current_offset == p.current_offset + messages.len()
        &&& q.id == partition_id
        &&& q.counters.size_bytes == p.counters.size_bytes + log_bytes(messages).len()
        &&& q.counters.messages_count == p.counters.messages_count + messages.len()
        &&& after.counters.size_bytes == self.counters.size_bytes + log_bytes(messages).len()
        &&& after.counters.messages_count == self.counters.messages_count + messages.len()
        &&& after == (Topic { partitions: after.partitions, counters: after.counters, ..*self })
    }

    /// Measures the records of `messages` for the partition
    /// `partition_id`, or says why the topic refuses them.
    pub fn measure(&self, partition_id: u32, messages: &Vec<Message>) -> (result: Result<
        u64,
        LogError,
    >)
        requires
            self.wf(),
        ensures
            result == (match self.refusal(partition_id, views(messages@)) {
                Some(error) => Err::<u64, LogError>(error),
                None => Ok(log_bytes(views(messages@)).len() as u64),
            }),
            result is Ok ==> log_bytes(views(messages@)).len() <= u64::MAX,
    {
        let at = match self.find_partition(partition_id) {
            Some(at) => at,
            None => {
                return Err(LogError::NotFound);
            },
        };
        match self.partitions[at].measure(messages) {
            Some(total) => {
                if total <= u64::MAX - self.counters.size_bytes {
                    Ok(total)
                } else {
                    Err(LogError::TooLarge)
                }
            },
            None => Err(LogError::TooLarge),
        }
    }

    /// Appends `messages` to the partition `partition_id` at `now`, as
    /// `Partition::append_messages` does, and adds what was appended to the
    /// topic's counters. Returns the bytes and messages added. A refused
    /// call changes nothing.
    pub fn append_messages(&mut self, partition_id: u32, messages: Vec<Message>, now: u64) -> (result:
        Result<Counters, LogError>)
        requires
            old(self).wf(),
        ensures
            final(self).wf(),
            result is Err <==> old(self).refusal(partition_id, views(messages@)) is Some,
            result matches Err(error) ==> old(self).refusal(partition_id, views(messages@))
                == Some(error) && *final(self) == *old(self),
            result matches Ok(growth) ==> old(self).grows_to(
                *final(self),
                partition_id,
                views(messages@),
                now,
            ) && growth.size_bytes == log_bytes(views(messages@)).len() && growth.messages_count
                == messages@.len(),
    {
        match self.measure(partition_id, &messages) {
            Err(error) => {
                return Err(error);
            },
            Ok(_) => {},
        }
        let at = match self.find_partition(partition_id) {
            Some(at) => at,
            None => unreached(),
        };
        let ghost before = self.partitions@;
        proof {
            assert(self.holds(before[at as int]));
        }
        let appended = self.partitions[at].append_messages(messages, now);
        let growth = match appended {
            Ok(growth) => growth,
            Err(_) => unreached(),
        };
        proof {
            let after = self.partitions@[at as int];
            lemma_total_update(partition_counters(before), at as int, after.counters);
            assert(partition_counters(self.partitions@) =~= partition_counters(before).update(
                at as int,
                after.counters,
            ));
            lemma_log_bytes_len(views(messages@));
            assert(partition_ids(self.partitions@) =~= partition_ids(before));
            assert forall|i: int| 0 <= i < self.partitions@.len() implies self.holds(
                #[trigger] self.partitions@[i],
            ) by {
                if i != at {
                    assert(self.partitions@[i] == before[i]);
                    assert(old(self).holds(before[i]));
                }
            }
        }
        self.counters = Counters {
            size_bytes: self.counters.size_bytes + growth.size_bytes,
            messages_count: self.counters.messages_count + growth.messages_count,
        };
        Ok(growth)
    }

    /// Whether `after` is this topic after the consumer `consumer_id` has
    /// read up to `count` messages from the partition `partition_id`:
    /// nothing but the consumers' offsets of that partition has changed,
    /// and they have moved as `Partition::moved` says.
    pub open spec fn polled_as(
        &self,
        after: Topic,
        partition_id: u32,
        consumer_id: u32,
        count: u32,
    ) -> bool {
        let at = self.index_of(partition_id);
        let p = self.partitions@[at];
        let q = after.partitions@[at];
        &&& after.partitions@ == self.partitions@.update(at, q)
        &&& q == (Partition { consumer_offsets: q.consumer_offsets, ..p })
        &&& q.consumer_offsets@ == p.moved(consumer_id, count)
        &&& after == (Topic { partitions: after.partitions, ..*self })
    }

    /// Up to `count` messages of the partition `partition_id` for the
    /// consumer `consumer_id`, as `Partition::get_messages_by_consumer`
    /// reads them and moves the consumer.
    pub fn get_messages_by_consumer(
        &mut self,
        partition_id: u32,
        consumer_id: u32,
        count: u32,
    ) -> (result: Result<Vec<Message>, LogError>)
        requires
            old(self).wf(),
        ensures
            final(self).wf(),
            result is Ok <==> old(self).index_of(partition_id) < old(self).partitions@.len(),
            result matches Err(error) ==> error == LogError::NotFound && *final(self) == *old(self),
            result matches Ok(read) ==> old(self).polled_as(
                *final(self),
                partition_id,
                consumer_id,
                count,
            ) && views(read@) == old(self).partitions@[old(self).index_of(partition_id)].due(
                consumer_id,
                count,
            ),
    {
        let at = match self.find_partition(partition_id) {
            Some(at) => at,
            None => {
                return Err(LogError::NotFound);
            },
        };
        let ghost before = self.partitions@;
        proof {
            assert(self.holds(before[at as int]));
        }
        let read = self.partitions[at].get_messages_by_consumer(consumer_id, count);
        proof {
            assert(partition_counters(self.partitions@) =~= partition_counters(before));
            assert(partition_ids(self.partitions@) =~= partition_ids(before));
            assert forall|i: int| 0 <= i < self.partitions@.len() implies self.holds(
                #[trigger] self.partitions@[i],
            ) by {
                if i != at {
                    assert(self.partitions@[i] == before[i]);
                    assert(old(self).holds(before[i]));
                }
            }
        }
        Ok(read)
    }

    /// Whether `after` is this topic after the partition `partition_id` was
    /// purged, as `Partition::purge` purges it, and what it held was taken
    /// off the topic's counters.
    pub open spec fn purged_to(&self, after: Topic, partition_id: u32) -> bool {
        let at = self.index_of(partition_id);
        let p = self.partitions@[at];
        let q = after.partitions@[at];
        &&& after.partitions@ == self.partitions@.update(at, q)
        &&& q.segments@.len() == 1
        &&& q.first_offset() == 0
        &&& q.messages() == Seq::<MessageView>::empty()
        &&& q.consumer_offsets@.len() == 0
        &&& q.cached_count() == 0
        &&& q == (Partition {
            segments: q.segments,
            cache: q.cache,
            consumer_offsets: q.consumer_offsets,
            current_offset: 0,
            newest_timestamp: 0,
            counters: Counters { size_bytes: 0, messages_count: 0 },
            ..p
        })
        &&& after.counters.size_bytes == self.counters.size_bytes - p.counters.size_bytes
        &&& after.counters.messages_count == self.counters.messages_count
            - p.counters.messages_count
        &&& after == (Topic { partitions: after.partitions, counters: after.counters, ..*self })
    }

    /// Deletes every message of the partition `partition_id`, as
    /// `Partition::purge` does, and takes what it held off the topic's
    /// counters. Returns the deleted segments, whose files are to be
    /// removed, and what they held.
    pub fn purge_partition(&mut self, partition_id: u32) -> (result: Result<
        (Vec<Segment>, Counters),
        LogError,
    >)
        requires
            old(self).wf(),
        ensures
            final(self).wf(),
            result is Ok <==> old(self).index_of(partition_id) < old(self).partitions@.len(),
            result matches Err(error) ==> error == LogError::NotFound && *final(self) == *old(self),
            result matches Ok(removed) ==> old(self).purged_to(*final(self), partition_id)
                && removed.0@ == old(self).partitions@[old(self).index_of(partition_id)].segments@
                && removed.1 == old(self).partitions@[old(self).index_of(partition_id)].counters,
    {
        let at = match self.find_partition(partition_id) {
            Some(at) => at,
            None => {
                return Err(LogError::NotFound);
            },
        };
        let ghost before = self.partitions@;
        proof {
            assert(self.holds(before[at as int]));
        }
        let removed = self.partitions[at].purge();
        proof {
            let after = self.partitions@[at as int];
            lemma_total_update(partition_counters(before), at as int, after.counters);
            assert(partition_counters(self.partitions@) =~= partition_counters(before).update(
                at as int,
                after.counters,
            ));
            assert(partition_ids(self.partitions@) =~= partition_ids(before));
            assert forall|i: int| 0 <= i < self.partitions@.len() implies self.holds(
                #[trigger] self.partitions@[i],
            ) by {
                if i != at {
                    assert(self.partitions@[i] == before[i]);
                    assert(old(self).holds(before[i]));
                }
            }
        }
        self.counters = Counters {
            size_bytes: self.counters.size_bytes - removed.1.size_bytes,
            messages_count: self.counters.messages_count - removed.1.messages_count,
        };
        proof {
            let items = partition_counters(self.partitions@);
            assert forall|i: int| 0 <= i < items.len() implies 45 * (
            #[trigger] items[i]).messages_count <= items[i].size_bytes by {
                assert(self.holds(self.partitions@[i]));
                self.partitions@[i].lemma_counters_bound();
            }
            lemma_sums_bound(items);
        }
        Ok(removed)
    }

    /// Deletes, in every partition, the sealed segments whose newest
    /// message has outlived the topic's expiry at `now`, and takes what
    /// they held off the counters. Open segments stay. Returns the deleted
    /// segments, whose files are to be removed, and what they held.
    pub fn delete_expired_segments(&mut self, now: u64) -> (removed: (Vec<Segment>, Counters))
        requires
            old(self).wf(),
        ensures
            final(self).wf(),
            old(self).aged_to(*final(self), now),
            removed.0@ == expired_segments(
                old(self).partitions@,
                expiry_cutoff(old(self).message_expiry, now),
            ),
            final(self).counters.size_bytes == old(self).counters.size_bytes
                - removed.1.size_bytes,
            final(self).counters.messages_count == old(self).counters.messages_count
                - removed.1.messages_count,
    {
        let mut removed: Vec<Segment> = Vec::new();
        let mut released = Counters { size_bytes: 0, messages_count: 0 };
        proof {
            lemma_none_expired(self.partitions@);
        }
        let cutoff: u64 = match self.message_expiry {
            Some(seconds) => {
                let lifetime = seconds as u64 * 1_000_000;
                if lifetime <= now {
                    now - lifetime
                } else {
                    return (removed, released);
                }
            },
            None => {
                return (removed, released);
            },
        };
        let total = self.partitions.len();
        let mut at: usize = 0;
        while at < total
            invariant
                at <= total == self.partitions@.len() == old(self).partitions@.len(),
                self.wf(),
                expiry_cutoff(old(self).message_expiry, now) == Some(cutoff),
                forall|i: int|
                    0 <= i < at ==> {
                        let before = old(self).partitions@[i];
                        let after = #[trigger] self.partitions@[i];
                        &&& after.id == before.id
                        &&& after.current_offset == before.current_offset
                        &&& after.segments@ == before.segments@.skip(stale(before.model(), cutoff))
                    },
                forall|i: int|
                    at <= i < total ==> (#[trigger] self.partitions@[i]) == old(self).partitions@[i],
                removed@ == expired_segments(old(self).partitions@.take(at as int), Some(cutoff)),
                self.counters.size_bytes + released.size_bytes == old(self).counters.size_bytes,
                self.counters.messages_count + released.messages_count
                    == old(self).counters.messages_count,
                *self == (Topic {
                    partitions: self.partitions,
                    counters: self.counters,
                    ..*old(self)
                }),
            decreases total - at,
        {
            let ghost before = self.partitions@;
            proof {
                assert(self.holds(before[at as int]));
                assert(old(self).partitions@.take(at + 1).drop_last() =~= old(self).partitions@.take(
                    at as int,
                ));
                assert(old(self).partitions@.take(at + 1).last() == before[at as int]);
            }
            let (mut gone, freed) = self.partitions[at].delete_segments_older_than(cutoff);
            removed.append(&mut gone);
            proof {
                let after = self.partitions@[at as int];
                lemma_total_update(partition_counters(before), at as int, after.counters);
                assert(partition_counters(self.partitions@) =~= partition_counters(before).update(
                    at as int,
                    after.counters,
                ));
                after.lemma_counters_bound();
                assert(partition_ids(self.partitions@) =~= partition_ids(before));
                assert forall|i: int| 0 <= i < self.partitions@.len() implies self.holds(
                    #[trigger] self.partitions@[i],
                ) by {
                    if i != at {
                        assert(self.partitions@[i] == before[i]);
                        assert(old(self).holds(before[i]));
                    }
                }
            }
            self.counters = Counters {
                size_bytes: self.counters.size_bytes - freed.size_bytes,
                messages_count: self.counters.messages_count - freed.messages_count,
            };
            released = Counters {
                size_bytes: released.size_bytes + freed.size_bytes,
                messages_count: released.messages_count + freed.messages_count,
            };
            proof {
                let items = partition_counters(self.partitions@);
                assert forall|i: int| 0 <= i < items.len() implies 45 * (
                #[trigger] items[i]).messages_count <= items[i].size_bytes by {
                    assert(self.holds(self.partitions@[i]));
                    self.partitions@[i].lemma_counters_bound();
                }
                lemma_sums_bound(items);
            }
            at = at + 1;
        }
        proof {
            assert(old(self).partitions@.take(total as int) =~= old(self).partitions@);
        }
        (removed, released)
    }
    /// Whether `after` is this topic after retention by age at `now`: each
    /// partition has lost the sealed segments whose newest message had
    /// outlived the topic's expiry, and nothing else has changed but the
    /// counters.
    pub open spec fn aged_to(&self, after: Topic, now: u64) -> bool {
        &&& after.partitions@.len() == self.partitions@.len()
        &&& forall|i: int|
            0 <= i < self.partitions@.len() ==> {
                let p = self.partitions@[i];
                let q = #[trigger] after.partitions@[i];
                let d = match expiry_cutoff(self.message_expiry, now) {
                    Some(cutoff) => stale(p.model(), cutoff),
                    None => 0,
                };
                &&& q.id == p.id
                &&& q.current_offset == p.current_offset
                &&& q.segments@ == p.segments@.skip(d)
            }
        &&& after == (Topic { partitions: after.partitions, counters: after.counters, ..*self })
    }

    /// Whether `after` is this topic after retention by size: nothing has
    /// changed where the topic has no limit or is within it; else each
    /// partition has its newest segments left, and the topic is within
    /// its limit or has no sealed segment left.
    pub open spec fn sized_to(&self, after: Topic) -> bool {
        &&& self.max_topic_size == 0 || self.counters.size_bytes <= self.max_topic_size ==> after
            == *self
        &&& self.max_topic_size > 0 ==> after.counters.size_bytes <= self.max_topic_size
            || none_sealed(after.partitions@)
        &&& after.partitions@.len() == self.partitions@.len()
        &&& forall|i: int|
            0 <= i < self.partitions@.len() ==> {
                let p = self.partitions@[i];
                let q = #[trigger] after.partitions@[i];
                &&& q.id == p.id
                &&& q.current_offset == p.current_offset
                &&& q.segments@.len() <= p.segments@.len()
                &&& q.segments@ == p.segments@.skip(p.segments@.len() - q.segments@.len())
            }
        &&& after == (Topic { partitions: after.partitions, counters: after.counters, ..*self })
    }

    /// Whether `after` is this topic after retention at `now`: first by
    /// age, then by size.
    pub open spec fn retained_as(&self, after: Topic, now: u64) -> bool {
        exists|between: Topic| #[trigger]
            self.aged_to(between, now) && between.wf() && between.sized_to(after)
    }

    /// The counters of a topic are the sums of the counters of its
    /// partitions, and those the sums over their segments.
    pub proof fn lemma_counters_add_up(&self)
        requires
            self.wf(),
        ensures
            self.counters.size_bytes == total_bytes(partition_counters(self.partitions@)),
            self.counters.messages_count == total_messages(partition_counters(self.partitions@)),
            forall|i: int|
                0 <= i < self.partitions@.len() ==> (#[trigger] self.partitions@[i]).counters.size_bytes
                    == crate::partition::sum_of_sizes(self.partitions@[i].segments@)
                    && self.partitions@[i].counters.messages_count
                    == crate::partition::sum_of_messages(self.partitions@[i].segments@),
    {
        assert forall|i: int| 0 <= i < self.partitions@.len() implies (
        #[trigger] self.partitions@[i]).counters.size_bytes == crate::partition::sum_of_sizes(
            self.partitions@[i].segments@,
        ) && self.partitions@[i].counters.messages_count == crate::partition::sum_of_messages(
            self.partitions@[i].segments@,
        ) by {
            assert(self.holds(self.partitions@[i]));
            self.partitions@[i].lemma_counters_add_up();
        }
    }

    /// The index of the partition that holds the oldest sealed segment of
    /// the topic; `None` where no partition holds a sealed segment.
    pub fn oldest_sealed(&self) -> (found: Option<usize>)
        requires
            self.wf(),
        ensures
            found is None <==> none_sealed(self.partitions@),
            found matches Some(p) ==> holds_oldest_sealed(self.partitions@, p as int),
    {
        let total = self.partitions.len();
        let mut found: Option<usize> = None;
        let mut least: u64 = 0;
        let mut at: usize = 0;
        while at < total
            invariant
                at <= total == self.partitions@.len(),
                self.wf(),
                found is None <==> none_sealed(self.partitions@.take(at as int)),
                found matches Some(p) ==> p < at && least == self.partitions@[p as int].first_offset()
                    && holds_oldest_sealed(self.partitions@.take(at as int), p as int),
            decreases total - at,
        {
            let partition = &self.partitions[at];
            let ghost seen = self.partitions@.take(at as int);
            let ghost more = self.partitions@.take(at + 1);
            proof {
                assert(self.holds(*partition));
                assert(more =~= seen.push(*partition));
                assert forall|i: int| 0 <= i < seen.len() implies more[i] == seen[i] by {}
            }
            if partition.segments.len() > 1 {
                let start = partition.segments[0].start_offset;
                let better = match found {
                    Some(_) => start < least,
                    None => true,
                };
                if better {
                    proof {
                        if found is Some {
                            let p = found->0 as int;
                            assert forall|i: int|
                                0 <= i < more.len() && (#[trigger] more[i]).segments@.len() > 1
                                implies more[at as int].first_offset()
                                <= more[i].first_offset() by {
                                if i < at {
                                    assert(seen[i].segments@.len() > 1);
                                    assert(seen[p].first_offset() <= seen[i].first_offset());
                                }
                            }
                            assert forall|i: int|
                                0 <= i < at && (#[trigger] more[i]).segments@.len() > 1
                                implies more[at as int].first_offset()
                                < more[i].first_offset() by {
                                assert(seen[i].segments@.len() > 1);
                                assert(seen[p].first_offset() <= seen[i].first_offset());
                            }
                        } else {
                            assert forall|i: int| 0 <= i < at implies (
                            #[trigger] more[i]).segments@.len() <= 1 by {
                                assert(seen[i].segments@.len() <= 1);
                            }
                        }
                        assert(holds_oldest_sealed(more, at as int));
                    }
                    found = Some(at);
                    least = start;
                } else {
                    proof {
                        let p = found->0 as int;
                        assert forall|i: int|
                            0 <= i < more.len() && (#[trigger] more[i]).segments@.len() > 1
                            implies more[p].first_offset() <= more[i].first_offset() by {
                            if i < at {
                                assert(seen[i].segments@.len() > 1);
                            }
                        }
                        assert forall|i: int|
                            0 <= i < p && (#[trigger] more[i]).segments@.len() > 1
                            implies more[p].first_offset() < more[i].first_offset() by {
                            assert(seen[i].segments@.len() > 1);
                        }
                        assert(holds_oldest_sealed(more, p));
                    }
                }
                proof {
                    assert(more[at as int].segments@.len() > 1);
                    assert(!none_sealed(more));
                }
            } else {
                proof {
                    if found is Some {
                        let p = found->0 as int;
                        assert forall|i: int|
                            0 <= i < more.len() && (#[trigger] more[i]).segments@.len() > 1
                            implies more[p].first_offset() <= more[i].first_offset() by {
                            if i < at {
                                assert(seen[i].segments@.len() > 1);
                            }
                        }
                        assert forall|i: int|
                            0 <= i < p && (#[trigger] more[i]).segments@.len() > 1
                            implies more[p].first_offset() < more[i].first_offset() by {
                            assert(seen[i].segments@.len() > 1);
                        }
                        assert(holds_oldest_sealed(more, p));
                        assert(more[p].segments@.len() > 1);
                        assert(!none_sealed(more));
                    } else {
                        assert forall|i: int| 0 <= i < more.len() implies (
                        #[trigger] more[i]).segments@.len() <= 1 by {
                            if i < at {
                                assert(seen[i].segments@.len() <= 1);
                            }
                        }
                    }
                }
            }
            at = at + 1;
        }
        proof {
            assert(self.partitions@.take(total as int) =~= self.partitions@);
        }
        found
    }

    /// Deletes the oldest sealed segment of the topic and takes what it
    /// held off the counters. Returns the deleted segment, if there was
    /// one, and what it held.
    pub fn delete_oldest_segment(&mut self) -> (removed: (Vec<Segment>, Counters))
        requires
            old(self).wf(),
        ensures
            final(self).wf(),
            none_sealed(old(self).partitions@) ==> *final(self) == *old(self) && removed.0@.len()
                == 0 && removed.1 == (Counters { size_bytes: 0, messages_count: 0 }),
            forall|p: int|
                holds_oldest_sealed(old(self).partitions@, p) ==> {
                    let before = old(self).partitions@[p];
                    let after = final(self).partitions@[p];
                    &&& final(self).partitions@ == old(self).partitions@.update(p, after)
                    &&& after.segments@ == before.segments@.skip(1)
                    &&& after.id == before.id
                    &&& after.current_offset == before.current_offset
                    &&& removed.0@ == before.segments@.take(1)
                    &&& removed.1.size_bytes == before.segments@[0].size_bytes
                    &&& removed.1.size_bytes > 0
                },
            final(self).counters.size_bytes == old(self).counters.size_bytes
                - removed.1.size_bytes,
            final(self).counters.messages_count == old(self).counters.messages_count
                - removed.1.messages_count,
            *final(self) == (Topic {
                partitions: final(self).partitions,
                counters: final(self).counters,
                ..*old(self)
            }),
    {
        let at = match self.oldest_sealed() {
            Some(at) => at,
            None => {
                return (Vec::new(), Counters { size_bytes: 0, messages_count: 0 });
            },
        };
        let ghost before = self.partitions@;
        proof {
            assert(self.holds(before[at as int]));
            lemma_oldest_is_one(before, at as int);
            lemma_first_segment_size(before[at as int]);
        }
        let removed = self.partitions[at].delete_segments(1);
        proof {
            let after = self.partitions@[at as int];
            lemma_total_update(partition_counters(before), at as int, after.counters);
            assert(partition_counters(self.partitions@) =~= partition_counters(before).update(
                at as int,
                after.counters,
            ));
            assert(partition_ids(self.partitions@) =~= partition_ids(before));
            assert forall|i: int| 0 <= i < self.partitions@.len() implies self.holds(
                #[trigger] self.partitions@[i],
            ) by {
                if i != at {
                    assert(self.partitions@[i] == before[i]);
                    assert(old(self).holds(before[i]));
                }
            }
        }
        self.counters = Counters {
            size_bytes: self.counters.size_bytes - removed.1.size_bytes,
            messages_count: self.counters.messages_count - removed.1.messages_count,
        };
        proof {
            let items = partition_counters(self.partitions@);
            assert forall|i: int| 0 <= i < items.len() implies 45 * (
            #[trigger] items[i]).messages_count <= items[i].size_bytes by {
                assert(self.holds(self.partitions@[i]));
                self.partitions@[i].lemma_counters_bound();
            }
            lemma_sums_bound(items);
        }
        removed
    }

    /// Deletes the oldest sealed segments of the topic, one after the
    /// other, for as long as the topic holds more bytes than
    /// `max_topic_size` and a sealed segment is left. A limit of 0 is no
    /// limit. Returns the deleted segments and what they held.
    pub fn enforce_max_size(&mut self) -> (removed: (Vec<Segment>, Counters))
        requires
            old(self).wf(),
        ensures
            final(self).wf(),
            old(self).sized_to(*final(self)),
            old(self).max_topic_size == 0 || old(self).counters.size_bytes
                <= old(self).max_topic_size ==> removed.0@.len() == 0,
            removed.0@.len() > 0 ==> final(self).counters.size_bytes
                + removed.0@.last().size_bytes > old(self).max_topic_size,
            final(self).counters.size_bytes == old(self).counters.size_bytes
                - removed.1.size_bytes,
            final(self).counters.messages_count == old(self).counters.messages_count
                - removed.1.messages_count,
    {
        let mut removed: Vec<Segment> = Vec::new();
        let mut released = Counters { size_bytes: 0, messages_count: 0 };
        let mut more = self.max_topic_size > 0;
        proof {
            assert forall|i: int| 0 <= i < self.partitions@.len() implies (
            #[trigger] self.partitions@[i]).segments@ == self.partitions@[i].segments@.skip(
                0,
            ) by {
                assert(self.partitions@[i].segments@.skip(0) =~= self.partitions@[i].segments@);
            }
        }
        while more && self.counters.size_bytes > self.max_topic_size
            invariant
                self.wf(),
                self.partitions@.len() == old(self).partitions@.len(),
                old(self).max_topic_size == 0 || old(self).counters.size_bytes
                    <= old(self).max_topic_size ==> *self == *old(self) && removed@.len() == 0,
                old(self).max_topic_size > 0 && !more ==> none_sealed(self.partitions@),
                old(self).max_topic_size == 0 ==> !more,
                removed@.len() > 0 ==> self.counters.size_bytes + removed@.last().size_bytes
                    > old(self).max_topic_size,
                forall|i: int|
                    0 <= i < old(self).partitions@.len() ==> {
                        let before = old(self).partitions@[i];
                        let after = #[trigger] self.partitions@[i];
                        &&& after.id == before.id
                        &&& after.current_offset == before.current_offset
                        &&& after.segments@.len() <= before.segments@.len()
                        &&& after.segments@ == before.segments@.skip(
                            before.segments@.len() - after.segments@.len(),
                        )
                    },
                self.counters.size_bytes + released.size_bytes == old(self).counters.size_bytes,
                self.counters.messages_count + released.messages_count
                    == old(self).counters.messages_count,
                *self == (Topic {
                    partitions: self.partitions,
                    counters: self.counters,
                    ..*old(self)
                }),
            decreases self.counters.size_bytes + (if more { 1int } else { 0int }),
        {
            let ghost before = self.partitions@;
            let found = self.oldest_sealed();
            let (mut gone, freed) = self.delete_oldest_segment();
            if found.is_none() {
                more = false;
            } else {
                proof {
                    let p = found->0 as int;
                    assert(holds_oldest_sealed(before, p));
                    assert forall|i: int| 0 <= i < old(self).partitions@.len() implies {
                        let origin = old(self).partitions@[i];
                        let after = #[trigger] self.partitions@[i];
                        &&& after.id == origin.id
                        &&& after.current_offset == origin.current_offset
                        &&& after.segments@.len() <= origin.segments@.len()
                        &&& after.segments@ == origin.segments@.skip(
                            origin.segments@.len() - after.segments@.len(),
                        )
                    } by {
                        let origin = old(self).partitions@[i];
                        if i == p {
                            assert(before[i].segments@.skip(1) =~= origin.segments@.skip(
                                origin.segments@.len() - before[i].segments@.len() + 1,
                            ));
                        } else {
                            assert(self.partitions@[i] == before[i]);
                        }
                    }
                }
                proof {
                    let p = found->0 as int;
                    assert(gone@.last() == before[p].segments@[0]);
                }
                removed.append(&mut gone);
                released = Counters {
                    size_bytes: released.size_bytes + freed.size_bytes,
                    messages_count: released.messages_count + freed.messages_count,
                };
            }
        }
        (removed, released)
    }
}

/// A message takes at least 45 bytes in each of `items`, so it does in
/// their sums.
pub proof fn lemma_sums_bound(items: Seq<Counters>)
    requires
        forall|i: int|
            0 <= i < items.len() ==> 45 * (#[trigger] items[i]).messages_count
                <= items[i].size_bytes,
    ensures
        45 * total_messages(items) <= total_bytes(items),
    decreases items.len(),
{
    if items.len() > 0 {
        let front = items.drop_last();
        assert forall|i: int| 0 <= i < front.len() implies 45 * (#[trigger] front[i]).messages_count
            <= front[i].size_bytes by {
            assert(front[i] == items[i]);
        }
        lemma_sums_bound(front);
        assert(items.last() == items[items.len() - 1]);
    }
}

/// At most one partition holds the oldest sealed segment.
pub proof fn lemma_oldest_is_one(partitions: Seq<Partition>, p: int)
    requires
        holds_oldest_sealed(partitions, p),
    ensures
        forall|q: int| holds_oldest_sealed(partitions, q) ==> q == p,
        !none_sealed(partitions),
{
    assert forall|q: int| holds_oldest_sealed(partitions, q) implies q == p by {
        if q < p {
            assert(partitions[q].segments@.len() > 1);
            assert(partitions[p].first_offset() < partitions[q].first_offset());
            assert(partitions[p].segments@.len() > 1);
            assert(partitions[q].first_offset() <= partitions[p].first_offset());
        } else if p < q {
            assert(partitions[p].segments@.len() > 1);
            assert(partitions[q].first_offset() < partitions[p].first_offset());
            assert(partitions[q].segments@.len() > 1);
            assert(partitions[p].first_offset() <= partitions[q].first_offset());
        }
    }
    assert(partitions[p].segments@.len() > 1);
}

/// A sealed segment at the head of a partition holds messages; what it
/// holds is what the head of the partition's chain holds.
pub proof fn lemma_first_segment_size(partition: Partition)
    requires
        partition.wf(),
        partition.segments@.len() > 1,
    ensures
        partition.segments@[0].size_bytes > 0,
        size_of(partition.model().take(1)) == partition.segments@[0].size_bytes,
        log_of(partition.model().take(1)) == partition.segments@[0].messages(),
{
    let chain = partition.model();
    let first = partition.segments@[0];
    assert(partition.owns(first));
    first.lemma_wf();
    assert(chain[0] == first.model());
    assert(chain[0].messages.len() > 0);
    lemma_log_bytes_len(first.messages());
    let head = chain.take(1);
    assert(head.drop_last() =~= Seq::empty());
    assert(head.last() == chain[0]);
    assert(size_of(head.drop_last()) == 0);
    assert(log_of(head.drop_last()) =~= Seq::<MessageView>::empty());
    assert(log_of(head) =~= first.messages());
}

} // verus!
