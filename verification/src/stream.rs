//! A stream: the top-level namespace of topics.
//!
//! A stream owns its topics, found by id or by name, both unique within
//! the stream, and carries the bytes and messages of all of them.

use std::sync::Arc;
use vstd::prelude::*;
use crate::configs::{share, SystemConfig};
use crate::counters::{
    lemma_total_push, lemma_total_remove, lemma_total_update, sums_up, total_bytes, total_messages,
};
use crate::error::LogError;
use crate::log::{lemma_log_bytes_len, log_bytes};
use crate::lookup::{distinct, first_index, lemma_first_index, lemma_first_index_found};
use crate::message::{Message, MessageView};
use crate::segment::{views, Counters, Segment};
use crate::topic::{any_cut_in, held_bytes, loadable, PartitionFiles, Topic};

verus! {

pub struct Stream {
    pub id: u32,
    pub name: String,
    /// The topics, in the order of their creation; their ids differ, and
    /// so do their names.
    pub topics: Vec<Topic>,
    /// Bytes and messages that the topics hold together.
    pub counters: Counters,
    pub config: Arc<SystemConfig>,
    pub created_at: u64,
}

/// The ids of `topics`, in order.
pub open spec fn topic_ids(topics: Seq<Topic>) -> Seq<u32> {
    Seq::new(topics.len(), |i: int| topics[i].id)
}

/// The names of `topics`, in order.
pub open spec fn topic_names(topics: Seq<Topic>) -> Seq<Seq<char>> {
    Seq::new(topics.len(), |i: int| topics[i].name@)
}

/// The counters of `topics`, in order.
pub open spec fn topic_counters(topics: Seq<Topic>) -> Seq<Counters> {
    Seq::new(topics.len(), |i: int| topics[i].counters)
}

impl Stream {
    /// A topic of this stream: well-formed, under the stream's id and
    /// configuration.
    pub open spec fn carries(&self, topic: Topic) -> bool {
        &&& topic.wf()
        &&& topic.stream_id == self.id
        &&& topic.config == self.config
    }

    /// The stream's invariant.
    pub open spec fn wf(&self) -> bool {
        &&& self.config.valid()
        &&& forall|i: int| 0 <= i < self.topics@.len() ==> self.carries(#[trigger] self.topics@[i])
        &&& distinct(topic_ids(self.topics@))
        &&& distinct(topic_names(self.topics@))
        &&& sums_up(self.counters, topic_counters(self.topics@))
    }

    /// Where the topic `topic_id` stands among the topics; their number
    /// where there is none.
    pub open spec fn index_of(&self, topic_id: u32) -> int {
        first_index(topic_ids(self.topics@), topic_id)
    }

    /// Where the topic named `name` stands among the topics; their number
    /// where there is none.
    pub open spec fn index_of_name(&self, name: Seq<char>) -> int {
        first_index(topic_names(self.topics@), name)
    }

    /// A stream without topics.
    pub fn create(id: u32, name: String, config: Arc<SystemConfig>, created_at: u64) -> (result:
        Result<Stream, LogError>)
        ensures
            result is Ok <==> config.valid(),
            result matches Err(error) ==> error == LogError::ConfigError,
            result matches Ok(stream) ==> stream.wf() && stream.id == id && stream.name == name
                && stream.config == config && stream.created_at == created_at
                && stream.topics@.len() == 0 && stream.counters == (Counters {
                size_bytes: 0,
                messages_count: 0,
            }),
    {
        match config.validate() {
            Err(error) => Err(error),
            Ok(()) => Ok(
                Stream {
                    id,
                    name,
                    topics: Vec::new(),
                    counters: Counters { size_bytes: 0, messages_count: 0 },
                    config,
                    created_at,
                },
            ),
        }
    }

    /// The index of the topic `topic_id`.
    pub fn find_topic(&self, topic_id: u32) -> (found: Option<usize>)
        ensures
            found is Some <==> self.index_of(topic_id) < self.topics@.len(),
            found matches Some(at) ==> at == self.index_of(topic_id) && self.topics@[at as int].id
                == topic_id,
    {
        let total = self.topics.len();
        let mut at: usize = 0;
        while at < total && self.topics[at].id != topic_id
            invariant
                at <= total == self.topics@.len(),
                forall|k: int| 0 <= k < at ==> topic_ids(self.topics@)[k] != topic_id,
            decreases total - at,
        {
            at += 1;
        }
        proof {
            if at < total {
                assert(topic_ids(self.topics@)[at as int] == topic_id);
            }
            lemma_first_index(topic_ids(self.topics@), topic_id, at as int);
        }
        if at < total {
            Some(at)
        } else {
            None
        }
    }

    /// The index of the topic named `name`.
    pub fn find_topic_by_name(&self, name: &String) -> (found: Option<usize>)
        ensures
            found is Some <==> self.index_of_name(name@) < self.topics@.len(),
            found matches Some(at) ==> at == self.index_of_name(name@)
                && self.topics@[at as int].name@ == name@,
    {
        let total = self.topics.len();
        let mut at: usize = 0;
        while at < total && self.topics[at].name != *name
            invariant
                at <= total == self.topics@.len(),
                forall|k: int| 0 <= k < at ==> topic_names(self.topics@)[k] != name@,
            decreases total - at,
        {
            at += 1;
        }
        proof {
            if at < total {
                assert(topic_names(self.topics@)[at as int] == name@);
            }
            lemma_first_index(topic_names(self.topics@), name@, at as int);
        }
        if at < total {
            Some(at)
        } else {
            None
        }
    }

    /// The topic `topic_id`, to read from.
    pub fn get_topic(&self, topic_id: u32) -> (result: Result<&Topic, LogError>)
        requires
            self.wf(),
        ensures
            result is Ok <==> self.index_of(topic_id) < self.topics@.len(),
            result matches Err(error) ==> error == LogError::NotFound,
            result matches Ok(topic) ==> *topic == self.topics@[self.index_of(topic_id)]
                && topic.id == topic_id && topic.wf(),
    {
        match self.find_topic(topic_id) {
            Some(at) => {
                assert(self.carries(self.topics@[at as int]));
                Ok(&self.topics[at])
            },
            None => Err(LogError::NotFound),
        }
    }

    /// The topic named `name`, to read from.
    pub fn get_topic_by_name(&self, name: &String) -> (result: Result<&Topic, LogError>)
        requires
            self.wf(),
        ensures
            result is Ok <==> self.index_of_name(name@) < self.topics@.len(),
            result matches Err(error) ==> error == LogError::NotFound,
            result matches Ok(topic) ==> *topic == self.topics@[self.index_of_name(name@)]
                && topic.name@ == name@ && topic.wf(),
    {
        match self.find_topic_by_name(name) {
            Some(at) => {
                assert(self.carries(self.topics@[at as int]));
                Ok(&self.topics[at])
            },
            None => Err(LogError::NotFound),
        }
    }

    /// Adds an empty topic with `partitions_count` partitions behind the
    /// others. Refused, with nothing changed, where a topic of the stream
    /// has the id or the name.
    pub fn create_topic(
        &mut self,
        topic_id: u32,
        name: String,
        partitions_count: u32,
        message_expiry: Option<u32>,
        max_topic_size: u64,
        created_at: u64,
    ) -> (result: Result<(), LogError>)
        requires
            old(self).wf(),
        ensures
            final(self).wf(),
            result is Ok <==> old(self).index_of(topic_id) >= old(self).topics@.len() && old(self).index_of_name(name@) >= old(self).topics@.len(),
            result matches Err(error) ==> error == LogError::AlreadyExists && *final(self) == *old(self),
            result is Ok ==> {
                let topic = final(self).topics@.last();
                &&& final(self).topics@ == old(self).topics@.push(topic)
                &&& topic.id == topic_id
                &&& topic.name == name
                &&& topic.stream_id == old(self).id
                &&& topic.message_expiry == message_expiry
                &&& topic.max_topic_size == max_topic_size
                &&& topic.created_at == created_at
                &&& topic.partitions@.len() == partitions_count
                &&& topic.counters == (Counters { size_bytes: 0, messages_count: 0 })
                &&& forall|i: int|
                    0 <= i < partitions_count ==> (#[trigger] topic.partitions@[i]).id == i + 1
                        && topic.partitions@[i].messages() == Seq::<MessageView>::empty()
                        && topic.partitions@[i].current_offset == 0
            },
            *final(self) == (Stream { topics: final(self).topics, ..*old(self) }),
    {
        if self.find_topic(topic_id).is_some() || self.find_topic_by_name(&name).is_some() {
            return Err(LogError::AlreadyExists);
        }
        let ghost before = self.topics@;
        let created = Topic::create(
            self.id,
            topic_id,
            name,
            partitions_count,
            share(&self.config),
            message_expiry,
            max_topic_size,
            created_at,
        );
        match created {
            Ok(topic) => {
                proof {
                    lemma_total_push(topic_counters(before), topic.counters);
                    lemma_first_index_found(topic_ids(before), topic_id);
                    lemma_first_index_found(topic_names(before), name@);
                    assert(topic_counters(before.push(topic)) =~= topic_counters(before).push(
                        topic.counters,
                    ));
                    let ids = topic_ids(before.push(topic));
                    let names = topic_names(before.push(topic));
                    assert forall|i: int, j: int| 0 <= i < j < ids.len() implies ids[i]
                        != ids[j] by {
                        if j < before.len() {
                            assert(topic_ids(before)[i] != topic_ids(before)[j]);
                        } else {
                            assert(topic_ids(before)[i] != topic_id);
                        }
                    }
                    assert forall|i: int, j: int| 0 <= i < j < names.len() implies names[i]
                        != names[j] by {
                        if j < before.len() {
                            assert(topic_names(before)[i] != topic_names(before)[j]);
                        } else {
                            assert(topic_names(before)[i] != name@);
                        }
                    }
                }
                self.topics.push(topic);
                proof {
                    assert forall|i: int| 0 <= i < self.topics@.len() implies self.carries(
                        #[trigger] self.topics@[i],
                    ) by {
                        if i < before.len() {
                            assert(self.topics@[i] == before[i]);
                            assert(old(self).carries(before[i]));
                        }
                    }
                }
                Ok(())
            },
            Err(_) => unreached(),
        }
    }

    /// Takes the topic `topic_id` out of the stream, and what it holds off
    /// the counters. Returns the topic, whose files are to be removed.
    #[verifier::rlimit(30)]
    pub fn delete_topic(&mut self, topic_id: u32) -> (result: Result<Topic, LogError>)
        requires
            old(self).wf(),
        ensures
            final(self).wf(),
            result is Ok <==> old(self).index_of(topic_id) < old(self).topics@.len(),
            result matches Err(error) ==> error == LogError::NotFound && *final(self) == *old(self),
            result matches Ok(topic) ==> {
                let at = old(self).index_of(topic_id);
                &&& topic == old(self).topics@[at]
                &&& topic.id == topic_id
                &&& final(self).topics@ == old(self).topics@.remove(at)
                &&& final(self).counters.size_bytes == old(self).counters.size_bytes
                    - topic.counters.size_bytes
                &&& final(self).counters.messages_count == old(self).counters.messages_count
                    - topic.counters.messages_count
            },
            *final(self) == (Stream {
                topics: final(self).topics,
                counters: final(self).counters,
                ..*old(self)
            }),
    {
        let at = match self.find_topic(topic_id) {
            Some(at) => at,
            None => {
                return Err(LogError::NotFound);
            },
        };
        let ghost before = self.topics@;
        let topic = self.topics.remove(at);
        proof {
            lemma_total_remove(topic_counters(before), at as int);
            lemma_total_update(topic_counters(before), at as int, topic.counters);
            assert(topic_counters(self.topics@) =~= topic_counters(before).remove(at as int));
            assert(old(self).carries(before[at as int]));
            let ids = topic_ids(self.topics@);
            let names = topic_names(self.topics@);
            assert forall|i: int, j: int| 0 <= i < j < ids.len() implies ids[i] != ids[j] by {
                let a = if i < at { i } else { i + 1 };
                let b = if j < at { j } else { j + 1 };
                assert(topic_ids(before)[a] != topic_ids(before)[b]);
            }
            assert forall|i: int, j: int| 0 <= i < j < names.len() implies names[i]
                != names[j] by {
                let a = if i < at { i } else { i + 1 };
                let b = if j < at { j } else { j + 1 };
                assert(topic_names(before)[a] != topic_names(before)[b]);
            }
            assert forall|i: int| 0 <= i < self.topics@.len() implies self.carries(
                #[trigger] self.topics@[i],
            ) by {
                let a = if i < at { i } else { i + 1 };
                assert(self.topics@[i] == before[a]);
                assert(old(self).carries(before[a]));
            }
        }
        self.counters = Counters {
            size_bytes: self.counters.size_bytes - topic.counters.size_bytes,
            messages_count: self.counters.messages_count - topic.counters.messages_count,
        };
        proof {
            self.lemma_bound();
        }
        Ok(topic)
    }

    /// What an append to the partition `partition_id` of the topic
    /// `topic_id` returns where it is refused: `NotFound` where the stream
    /// has no such topic or the topic no such partition, `TooLarge` where
    /// the topic does not take the messages or the stream's byte counter
    /// would pass the largest `u64`.
    pub open spec fn refusal(
        &self,
        topic_id: u32,
        partition_id: u32,
        messages: Seq<MessageView>,
    ) -> Option<LogError> {
        let at = self.index_of(topic_id);
        if at >= self.topics@.len() {
            Some(LogError::NotFound)
        } else if self.topics@[at].refusal(partition_id, messages) is Some {
            self.topics@[at].refusal(partition_id, messages)
        } else if self.counters.size_bytes + log_bytes(messages).len() > u64::MAX {
            Some(LogError::TooLarge)
        } else {
            None
        }
    }

    /// Whether `after` is this stream with `messages` appended at `now` to
    /// the partition `partition_id` of the topic `topic_id`, as
    /// `Topic::append_messages` appends them, and counted.
    pub open spec fn grows_to(
        &self,
        after: Stream,
        topic_id: u32,
        partition_id: u32,
        messages: Seq<MessageView>,
        now: u64,
    ) -> bool {
        let at = self.index_of(topic_id);
        &&& after.topics@ == self.topics@.update(at, after.topics@[at])
        &&& self.topics@[at].grows_to(after.topics@[at], partition_id, messages, now)
        &&& after.counters.size_bytes == self.counters.size_bytes + log_bytes(messages).len()
        &&& after.counters.messages_count == self.counters.messages_count + messages.len()
        &&& after == (Stream { topics: after.topics, counters: after.counters, ..*self })
    }

    /// Measures the records of `messages` for the partition
    /// `partition_id` of the topic `topic_id`, or says why the stream
    /// refuses them.
    pub fn measure(&self, topic_id: u32, partition_id: u32, messages: &Vec<Message>) -> (result:
        Result<u64, LogError>)
        requires
            self.wf(),
        ensures
            result == (match self.refusal(topic_id, partition_id, views(messages@)) {
                Some(error) => Err::<u64, LogError>(error),
                None => Ok(log_bytes(views(messages@)).len() as u64),
            }),
            result is Ok ==> log_bytes(views(messages@)).len() <= u64::MAX,
    {
        let at = match self.find_topic(topic_id) {
            Some(at) => at,
            None => {
                return Err(LogError::NotFound);
            },
        };
        assert(self.carries(self.topics@[at as int]));
        match self.topics[at].measure(partition_id, messages) {
            Ok(total) => {
                if total <= u64::MAX - self.counters.size_bytes {
                    Ok(total)
                } else {
                    Err(LogError::TooLarge)
                }
            },
            Err(error) => Err(error),
        }
    }

    /// Appends `messages` to the partition `partition_id` of the topic
    /// `topic_id` at `now`, as `Topic::append_messages` does, and adds what
    /// was appended to the stream's counters. Returns the bytes and
    /// messages added. A refused call changes nothing.
    pub fn append_messages(
        &mut self,
        topic_id: u32,
        partition_id: u32,
        messages: Vec<Message>,
        now: u64,
    ) -> (result: Result<Counters, LogError>)
        requires
            old(self).wf(),
        ensures
            final(self).wf(),
            result is Err <==> old(self).refusal(topic_id, partition_id, views(messages@)) is Some,
            result matches Err(error) ==> old(self).refusal(
                topic_id,
                partition_id,
                views(messages@),
            ) == Some(error) && *final(self) == *old(self),
            result matches Ok(growth) ==> old(self).grows_to(
                *final(self),
                topic_id,
                partition_id,
                views(messages@),
                now,
            ) && growth.size_bytes == log_bytes(views(messages@)).len() && growth.messages_count
                == messages@.len(),
    {
        match self.measure(topic_id, partition_id, &messages) {
            Err(error) => {
                return Err(error);
            },
            Ok(_) => {},
        }
        let at = match self.find_topic(topic_id) {
            Some(at) => at,
            None => unreached(),
        };
        let ghost before = self.topics@;
        proof {
            assert(self.carries(before[at as int]));
        }
        let appended = self.topics[at].append_messages(partition_id, messages, now);
        let growth = match appended {
            Ok(growth) => growth,
            Err(_) => unreached(),
        };
        proof {
            self.lemma_child_changed(before, at as int);
            lemma_log_bytes_len(views(messages@));
        }
        self.counters = Counters {
            size_bytes: self.counters.size_bytes + growth.size_bytes,
            messages_count: self.counters.messages_count + growth.messages_count,
        };
        Ok(growth)
    }

    /// Up to `count` messages of the partition `partition_id` of the topic
    /// `topic_id` for the consumer `consumer_id`, as
    /// `Partition::get_messages_by_consumer` reads them and moves the
    /// consumer.
    pub fn get_messages_by_consumer(
        &mut self,
        topic_id: u32,
        partition_id: u32,
        consumer_id: u32,
        count: u32,
    ) -> (result: Result<Vec<Message>, LogError>)
        requires
            old(self).wf(),
        ensures
            final(self).wf(),
            result is Ok <==> old(self).index_of(topic_id) < old(self).topics@.len() && old(self).topics@[old(self).index_of(topic_id)].index_of(partition_id) < old(self).topics@[old(self).index_of(topic_id)].partitions@.len(),
            result matches Err(error) ==> error == LogError::NotFound && *final(self) == *old(self),
            result matches Ok(read) ==> old(self).polled_as(
                *final(self),
                topic_id,
                partition_id,
                consumer_id,
                count,
            ) && views(read@) == old(self).topics@[old(self).index_of(
                topic_id,
            )].partitions@[old(self).topics@[old(self).index_of(topic_id)].index_of(
                partition_id,
            )].due(consumer_id, count),
    {
        let at = match self.find_topic(topic_id) {
            Some(at) => at,
            None => {
                return Err(LogError::NotFound);
            },
        };
        let ghost before = self.topics@;
        proof {
            assert(self.carries(before[at as int]));
        }
        if self.topics[at].find_partition(partition_id).is_none() {
            return Err(LogError::NotFound);
        }
        let result = self.topics[at].get_messages_by_consumer(partition_id, consumer_id, count);
        proof {
            self.lemma_child_changed(before, at as int);
        }
        result
    }

    /// Whether `after` is this stream after the consumer `consumer_id` has
    /// read up to `count` messages from the partition `partition_id` of
    /// the topic `topic_id`: nothing but the consumers' offsets of that
    /// partition has changed.
    pub open spec fn polled_as(
        &self,
        after: Stream,
        topic_id: u32,
        partition_id: u32,
        consumer_id: u32,
        count: u32,
    ) -> bool {
        let at = self.index_of(topic_id);
        &&& after.topics@ == self.topics@.update(at, after.topics@[at])
        &&& self.topics@[at].polled_as(after.topics@[at], partition_id, consumer_id, count)
        &&& after == (Stream { topics: after.topics, ..*self })
    }

    /// Whether `after` is this stream after the partition `partition_id`
    /// of the topic `topic_id` was purged and what it held was taken off
    /// the counters of the topic and of the stream.
    pub open spec fn purged_to(&self, after: Stream, topic_id: u32, partition_id: u32) -> bool {
        let at = self.index_of(topic_id);
        let before = self.topics@[at];
        &&& after.topics@ == self.topics@.update(at, after.topics@[at])
        &&& before.purged_to(after.topics@[at], partition_id)
        &&& after.counters.size_bytes == self.counters.size_bytes - (before.counters.size_bytes
            - after.topics@[at].counters.size_bytes)
        &&& after.counters.messages_count == self.counters.messages_count - (
        before.counters.messages_count - after.topics@[at].counters.messages_count)
        &&& after == (Stream { topics: after.topics, counters: after.counters, ..*self })
    }

    /// Deletes every message of the partition `partition_id` of the topic
    /// `topic_id`, as `Partition::purge` does, and takes what it held off
    /// the counters of the topic and of the stream. Returns the deleted
    /// segments, whose files are to be removed, and what they held.
    pub fn purge_partition(&mut self, topic_id: u32, partition_id: u32) -> (result: Result<
        (Vec<Segment>, Counters),
        LogError,
    >)
        requires
            old(self).wf(),
        ensures
            final(self).wf(),
            result is Ok <==> old(self).index_of(topic_id) < old(self).topics@.len() && old(
                self,
            ).topics@[old(self).index_of(topic_id)].index_of(partition_id) < old(
                self,
            ).topics@[old(self).index_of(topic_id)].partitions@.len(),
            result matches Err(error) ==> error == LogError::NotFound && *final(self) == *old(self),
            result matches Ok(removed) ==> {
                let topic = old(self).topics@[old(self).index_of(topic_id)];
                let partition = topic.partitions@[topic.index_of(partition_id)];
                &&& old(self).purged_to(*final(self), topic_id, partition_id)
                &&& removed.0@ == partition.segments@
                &&& removed.1 == partition.counters
            },
    {
        let at = match self.find_topic(topic_id) {
            Some(at) => at,
            None => {
                return Err(LogError::NotFound);
            },
        };
        let ghost before = self.topics@;
        proof {
            assert(self.carries(before[at as int]));
        }
        if self.topics[at].find_partition(partition_id).is_none() {
            return Err(LogError::NotFound);
        }
        let removed = match self.topics[at].purge_partition(partition_id) {
            Ok(removed) => removed,
            Err(_) => unreached(),
        };
        proof {
            self.lemma_child_changed(before, at as int);
        }
        self.counters = Counters {
            size_bytes: self.counters.size_bytes - removed.1.size_bytes,
            messages_count: self.counters.messages_count - removed.1.messages_count,
        };
        proof {
            self.lemma_bound();
        }
        Ok(removed)
    }

    /// Whether `after` is this stream after retention at `now`: the same
    /// topics, each after retention, and counters that add up again.
    pub open spec fn retained_as(&self, after: Stream, now: u64) -> bool {
        &&& after.topics@.len() == self.topics@.len()
        &&& forall|i: int|
            0 <= i < self.topics@.len() ==> self.topics@[i].retained_as(
                #[trigger] after.topics@[i],
                now,
            )
        &&& after == (Stream { topics: after.topics, counters: after.counters, ..*self })
    }

    /// Deletes, in every topic, first the sealed segments whose newest
    /// message has outlived the topic's expiry at `now`, then the oldest
    /// sealed segments for as long as the topic holds more than its size
    /// limit, and takes what was deleted off the counters. Returns the
    /// deleted segments, whose files are to be removed, and what they held.
    pub fn apply_retention(&mut self, now: u64) -> (removed: (Vec<Segment>, Counters))
        requires
            old(self).wf(),
        ensures
            final(self).wf(),
            old(self).retained_as(*final(self), now),
            final(self).counters.size_bytes == old(self).counters.size_bytes
                - removed.1.size_bytes,
            final(self).counters.messages_count == old(self).counters.messages_count
                - removed.1.messages_count,
    {
        let mut removed: Vec<Segment> = Vec::new();
        let mut released = Counters { size_bytes: 0, messages_count: 0 };
        let total = self.topics.len();
        let mut at: usize = 0;
        while at < total
            invariant
                at <= total == self.topics@.len() == old(self).topics@.len(),
                self.wf(),
                forall|i: int|
                    0 <= i < at ==> old(self).topics@[i].retained_as(
                        #[trigger] self.topics@[i],
                        now,
                    ),
                forall|i: int| at <= i < total ==> (#[trigger] self.topics@[i]) == old(self).topics@[i],
                self.counters.size_bytes + released.size_bytes == old(self).counters.size_bytes,
                self.counters.messages_count + released.messages_count
                    == old(self).counters.messages_count,
                *self == (Stream { topics: self.topics, counters: self.counters, ..*old(self) }),
            decreases total - at,
        {
            let ghost before = self.topics@;
            proof {
                assert(self.carries(before[at as int]));
            }
            let (mut aged, by_age) = self.topics[at].delete_expired_segments(now);
            let ghost between = self.topics@[at as int];
            let (mut sized, by_size) = self.topics[at].enforce_max_size();
            removed.append(&mut aged);
            removed.append(&mut sized);
            proof {
                assert(before[at as int].aged_to(between, now) && between.wf() && between.sized_to(
                    self.topics@[at as int],
                ));
                assert(self.topics@ =~= before.update(at as int, self.topics@[at as int]));
                self.lemma_child_changed(before, at as int);
                assert forall|i: int| 0 <= i < at + 1 implies old(self).topics@[i].retained_as(
                    #[trigger] self.topics@[i],
                    now,
                ) by {
                    if i != at {
                        assert(self.topics@[i] == before[i]);
                    }
                }
            }
            self.counters = Counters {
                size_bytes: self.counters.size_bytes - by_age.size_bytes - by_size.size_bytes,
                messages_count: self.counters.messages_count - by_age.messages_count
                    - by_size.messages_count,
            };
            released = Counters {
                size_bytes: released.size_bytes + by_age.size_bytes + by_size.size_bytes,
                messages_count: released.messages_count + by_age.messages_count
                    + by_size.messages_count,
            };
            proof {
                self.lemma_bound();
            }
            at = at + 1;
        }
        (removed, released)
    }

    /// After the topic at `at` changed and kept its id, name, stream and
    /// configuration, the topics are those of the stream as before, and
    /// their counters add up to the old sums moved by the topic's change.
    proof fn lemma_child_changed(&self, before: Seq<Topic>, at: int)
        requires
            0 <= at < before.len(),
            self.topics@ == before.update(at, self.topics@[at]),
            self.topics@[at].wf(),
            self.topics@[at].id == before[at].id,
            self.topics@[at].name == before[at].name,
            self.topics@[at].stream_id == before[at].stream_id,
            self.topics@[at].config == before[at].config,
            forall|i: int| 0 <= i < before.len() ==> self.carries(#[trigger] before[i]),
            distinct(topic_ids(before)),
            distinct(topic_names(before)),
        ensures
            forall|i: int| 0 <= i < self.topics@.len() ==> self.carries(#[trigger] self.topics@[i]),
            distinct(topic_ids(self.topics@)),
            distinct(topic_names(self.topics@)),
            total_bytes(topic_counters(self.topics@)) == total_bytes(topic_counters(before))
                - before[at].counters.size_bytes + self.topics@[at].counters.size_bytes,
            total_messages(topic_counters(self.topics@)) == total_messages(topic_counters(before))
                - before[at].counters.messages_count + self.topics@[at].counters.messages_count,
            before[at].counters.size_bytes <= total_bytes(topic_counters(before)),
            before[at].counters.messages_count <= total_messages(topic_counters(before)),
    {
        let after = self.topics@[at];
        lemma_total_update(topic_counters(before), at, after.counters);
        assert(topic_counters(self.topics@) =~= topic_counters(before).update(at, after.counters));
        assert(topic_ids(self.topics@) =~= topic_ids(before));
        assert(topic_names(self.topics@) =~= topic_names(before));
        assert forall|i: int| 0 <= i < self.topics@.len() implies self.carries(
            #[trigger] self.topics@[i],
        ) by {
            if i != at {
                assert(self.topics@[i] == before[i]);
            } else {
                assert(self.carries(before[at]));
            }
        }
    }

    /// The counters of a stream are the sums of the counters of its
    /// topics.
    pub proof fn lemma_counters_add_up(&self)
        requires
            self.wf(),
        ensures
            self.counters.size_bytes == total_bytes(topic_counters(self.topics@)),
            self.counters.messages_count == total_messages(topic_counters(self.topics@)),
            forall|i: int| 0 <= i < self.topics@.len() ==> (#[trigger] self.topics@[i]).wf(),
    {
        assert forall|i: int| 0 <= i < self.topics@.len() implies (#[trigger] self.topics@[i]).wf() by {
            assert(self.carries(self.topics@[i]));
        }
    }

    /// Takes `topic`, which is of this stream and has a free id and a free
    /// name, behind the other topics, and counts what it holds.
    pub(crate) fn adopt(&mut self, topic: Topic)
        requires
            old(self).wf(),
            old(self).carries(topic),
            old(self).index_of(topic.id) >= old(self).topics@.len(),
            old(self).index_of_name(topic.name@) >= old(self).topics@.len(),
            old(self).counters.size_bytes + topic.counters.size_bytes <= u64::MAX,
        ensures
            final(self).wf(),
            final(self).topics@ == old(self).topics@.push(topic),
            final(self).counters.size_bytes == old(self).counters.size_bytes
                + topic.counters.size_bytes,
            final(self).counters.messages_count == old(self).counters.messages_count
                + topic.counters.messages_count,
            *final(self) == (Stream {
                topics: final(self).topics,
                counters: final(self).counters,
                ..*old(self)
            }),
    {
        let ghost before = self.topics@;
        proof {
            lemma_total_push(topic_counters(before), topic.counters);
            lemma_first_index_found(topic_ids(before), topic.id);
            lemma_first_index_found(topic_names(before), topic.name@);
            assert(topic_counters(before.push(topic)) =~= topic_counters(before).push(
                topic.counters,
            ));
            let ids = topic_ids(before.push(topic));
            let names = topic_names(before.push(topic));
            assert forall|i: int, j: int| 0 <= i < j < ids.len() implies ids[i] != ids[j] by {
                if j < before.len() {
                    assert(topic_ids(before)[i] != topic_ids(before)[j]);
                } else {
                    assert(topic_ids(before)[i] != topic.id);
                }
            }
            assert forall|i: int, j: int| 0 <= i < j < names.len() implies names[i]
                != names[j] by {
                if j < before.len() {
                    assert(topic_names(before)[i] != topic_names(before)[j]);
                } else {
                    assert(topic_names(before)[i] != topic.name@);
                }
            }
        }
        self.counters = Counters {
            size_bytes: self.counters.size_bytes + topic.counters.size_bytes,
            messages_count: self.counters.messages_count + topic.counters.messages_count,
        };
        self.topics.push(topic);
        proof {
            assert forall|i: int| 0 <= i < self.topics@.len() implies self.carries(
                #[trigger] self.topics@[i],
            ) by {
                if i < before.len() {
                    assert(self.topics@[i] == before[i]);
                    assert(old(self).carries(before[i]));
                }
            }
            self.lemma_bound();
        }
    }

    /// Adds the topic that `files` hold behind the others, built as
    /// `Topic::load` builds it, and counts what it holds. The value
    /// returned says whether a load has cut bytes off a file.
    ///
    /// Refused, with nothing changed: with `AlreadyExists` where a topic of
    /// the stream has the id or the name; else as `Topic::load` refuses the
    /// files; else with `TooLarge` where the stream's byte counter would
    /// pass the largest `u64`.
    pub fn load_topic(
        &mut self,
        topic_id: u32,
        name: String,
        message_expiry: Option<u32>,
        max_topic_size: u64,
        created_at: u64,
        files: Vec<PartitionFiles>,
    ) -> (result: Result<bool, LogError>)
        requires
            old(self).wf(),
        ensures
            final(self).wf(),
            result is Ok <==> old(self).index_of(topic_id) >= old(self).topics@.len() && old(
                self,
            ).index_of_name(name@) >= old(self).topics@.len() && loadable(files@) && old(
                self,
            ).counters.size_bytes + held_bytes(files@) <= u64::MAX,
            result is Err ==> *final(self) == *old(self),
            old(self).index_of(topic_id) < old(self).topics@.len() || old(self).index_of_name(
                name@,
            ) < old(self).topics@.len() ==> result == Err::<bool, LogError>(
                LogError::AlreadyExists,
            ),
            result matches Ok(recovered) ==> {
                let topic = final(self).topics@.last();
                &&& final(self).topics@ == old(self).topics@.push(topic)
                &&& topic.holds_files(files@)
                &&& topic.id == topic_id
                &&& topic.name == name
                &&& topic.message_expiry == message_expiry
                &&& topic.max_topic_size == max_topic_size
                &&& topic.created_at == created_at
                &&& recovered <==> any_cut_in(files@)
                &&& final(self).counters.size_bytes == old(self).counters.size_bytes
                    + topic.counters.size_bytes
                &&& final(self).counters.messages_count == old(self).counters.messages_count
                    + topic.counters.messages_count
                &&& *final(self) == (Stream {
                    topics: final(self).topics,
                    counters: final(self).counters,
                    ..*old(self)
                })
            },
    {
        if self.find_topic(topic_id).is_some() || self.find_topic_by_name(&name).is_some() {
            return Err(LogError::AlreadyExists);
        }
        let loaded = Topic::load(
            self.id,
            topic_id,
            name,
            share(&self.config),
            message_expiry,
            max_topic_size,
            created_at,
            files,
        );
        let (topic, recovered) = match loaded {
            Ok(built) => built,
            Err(error) => {
                return Err(error);
            },
        };
        if topic.counters.size_bytes > u64::MAX - self.counters.size_bytes {
            return Err(LogError::TooLarge);
        }
        self.adopt(topic);
        Ok(recovered)
    }

    /// A message takes at least 45 bytes in every topic, so it does in
    /// their sums.
    proof fn lemma_bound(&self)
        requires
            forall|i: int| 0 <= i < self.topics@.len() ==> (#[trigger] self.topics@[i]).wf(),
        ensures
            45 * total_messages(topic_counters(self.topics@)) <= total_bytes(
                topic_counters(self.topics@),
            ),
    {
        let items = topic_counters(self.topics@);
        assert forall|i: int| 0 <= i < items.len() implies 45 * (#[trigger] items[i]).messages_count
            <= items[i].size_bytes by {
            assert(self.topics@[i].wf());
        }
        crate::topic::lemma_sums_bound(items);
    }
}

} // verus!
