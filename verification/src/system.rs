//! The system: the root of the hierarchy.
//!
//! The system owns the streams, found by id or by name, both unique, and
//! carries the bytes and messages of everything below it. Appends and
//! retention go down from here, so that the counters of every level move
//! in one pass.

use std::sync::Arc;
use vstd::prelude::*;
use crate::configs::{share, SystemConfig};
use crate::counters::{
    lemma_total_push, lemma_total_remove, lemma_total_update, sums_up, total_bytes, total_messages,
};
use crate::error::LogError;
use crate::log::{lemma_log_bytes_len, log_bytes};
use crate::lookup::{distinct, first_index, lemma_first_index, lemma_first_index_found};
use crate::message::{Message, MessageView};
use crate::segment::{views, Counters, Segment};
use crate::stream::Stream;
use crate::topic::{any_cut_in, held_bytes, loadable, PartitionFiles, Topic};

verus! {

pub struct System {
    /// The streams, in the order of their creation; their ids differ, and
    /// so do their names.
    pub streams: Vec<Stream>,
    /// Bytes and messages that the streams hold together.
    pub counters: Counters,
    pub config: Arc<SystemConfig>,
}

/// The ids of `streams`, in order.
pub open spec fn stream_ids(streams: Seq<Stream>) -> Seq<u32> {
    Seq::new(streams.len(), |i: int| streams[i].id)
}

/// The names of `streams`, in order.
pub open spec fn stream_names(streams: Seq<Stream>) -> Seq<Seq<char>> {
    Seq::new(streams.len(), |i: int| streams[i].name@)
}

/// The counters of `streams`, in order.
pub open spec fn stream_counters(streams: Seq<Stream>) -> Seq<Counters> {
    Seq::new(streams.len(), |i: int| streams[i].counters)
}

impl System {
    /// A stream of this system: well-formed, under the system's
    /// configuration.
    pub open spec fn carries(&self, stream: Stream) -> bool {
        stream.wf() && stream.config == self.config
    }

    /// The system's invariant.
    pub open spec fn wf(&self) -> bool {
        &&& self.config.valid()
        &&& forall|i: int| 0 <= i < self.streams@.len() ==> self.carries(#[trigger] self.streams@[i])
        &&& distinct(stream_ids(self.streams@))
        &&& distinct(stream_names(self.streams@))
        &&& sums_up(self.counters, stream_counters(self.streams@))
    }

    /// Where the stream `stream_id` stands among the streams; their number
    /// where there is none.
    pub open spec fn index_of(&self, stream_id: u32) -> int {
        first_index(stream_ids(self.streams@), stream_id)
    }

    /// Where the stream named `name` stands among the streams; their
    /// number where there is none.
    pub open spec fn index_of_name(&self, name: Seq<char>) -> int {
        first_index(stream_names(self.streams@), name)
    }

    /// A system without streams.
    pub fn init(config: Arc<SystemConfig>) -> (result: Result<System, LogError>)
        ensures
            result is Ok <==> config.valid(),
            result matches Err(error) ==> error == LogError::ConfigError,
            result matches Ok(system) ==> system.wf() && system.config == config
                && system.streams@.len() == 0 && system.counters == (Counters {
                size_bytes: 0,
                messages_count: 0,
            }),
    {
        match config.validate() {
            Err(error) => Err(error),
            Ok(()) => Ok(
                System {
                    streams: Vec::new(),
                    counters: Counters { size_bytes: 0, messages_count: 0 },
                    config,
                },
            ),
        }
    }

    /// The index of the stream `stream_id`.
    pub fn find_stream(&self, stream_id: u32) -> (found: Option<usize>)
        ensures
            found is Some <==> self.index_of(stream_id) < self.streams@.len(),
            found matches Some(at) ==> at == self.index_of(stream_id)
                && self.streams@[at as int].id == stream_id,
    {
        let total = self.streams.len();
        let mut at: usize = 0;
        while at < total && self.streams[at].id != stream_id
            invariant
                at <= total == self.streams@.len(),
                forall|k: int| 0 <= k < at ==> stream_ids(self.streams@)[k] != stream_id,
            decreases total - at,
        {
            at += 1;
        }
        proof {
            if at < total {
                assert(stream_ids(self.streams@)[at as int] == stream_id);
            }
            lemma_first_index(stream_ids(self.streams@), stream_id, at as int);
        }
        if at < total {
            Some(at)
        } else {
            None
        }
    }

    /// The index of the stream named `name`.
    pub fn find_stream_by_name(&self, name: &String) -> (found: Option<usize>)
        ensures
            found is Some <==> self.index_of_name(name@) < self.streams@.len(),
            found matches Some(at) ==> at == self.index_of_name(name@)
                && self.streams@[at as int].name@ == name@,
    {
        let total = self.streams.len();
        let mut at: usize = 0;
        while at < total && self.streams[at].name != *name
            invariant
                at <= total == self.streams@.len(),
                forall|k: int| 0 <= k < at ==> stream_names(self.streams@)[k] != name@,
            decreases total - at,
        {
            at += 1;
        }
        proof {
            if at < total {
                assert(stream_names(self.streams@)[at as int] == name@);
            }
            lemma_first_index(stream_names(self.streams@), name@, at as int);
        }
        if at < total {
            Some(at)
        } else {
            None
        }
    }

    /// The stream `stream_id`, to read from.
    pub fn get_stream(&self, stream_id: u32) -> (result: Result<&Stream, LogError>)
        requires
            self.wf(),
        ensures
            result is Ok <==> self.index_of(stream_id) < self.streams@.len(),
            result matches Err(error) ==> error == LogError::NotFound,
            result matches Ok(stream) ==> *stream == self.streams@[self.index_of(stream_id)]
                && stream.id == stream_id && stream.wf(),
    {
        match self.find_stream(stream_id) {
            Some(at) => {
                assert(self.carries(self.streams@[at as int]));
                Ok(&self.streams[at])
            },
            None => Err(LogError::NotFound),
        }
    }

    /// The stream named `name`, to read from.
    pub fn get_stream_by_name(&self, name: &String) -> (result: Result<&Stream, LogError>)
        requires
            self.wf(),
        ensures
            result is Ok <==> self.index_of_name(name@) < self.streams@.len(),
            result matches Err(error) ==> error == LogError::NotFound,
            result matches Ok(stream) ==> *stream == self.streams@[self.index_of_name(name@)]
                && stream.name@ == name@ && stream.wf(),
    {
        match self.find_stream_by_name(name) {
            Some(at) => {
                assert(self.carries(self.streams@[at as int]));
                Ok(&self.streams[at])
            },
            None => Err(LogError::NotFound),
        }
    }

    /// Adds an empty stream behind the others. Refused, with nothing
    /// changed, where a stream has the id or the name.
    pub fn create_stream(&mut self, stream_id: u32, name: String, created_at: u64) -> (result:
        Result<(), LogError>)
        requires
            old(self).wf(),
        ensures
            final(self).wf(),
            result is Ok <==> old(self).index_of(stream_id) >= old(self).streams@.len() && old(self).index_of_name(name@) >= old(self).streams@.len(),
            result matches Err(error) ==> error == LogError::AlreadyExists && *final(self) == *old(self),
            result is Ok ==> {
                let stream = final(self).streams@.last();
                &&& final(self).streams@ == old(self).streams@.push(stream)
                &&& stream.id == stream_id
                &&& stream.name == name
                &&& stream.created_at == created_at
                &&& stream.topics@.len() == 0
                &&& stream.counters == (Counters { size_bytes: 0, messages_count: 0 })
            },
            *final(self) == (System { streams: final(self).streams, ..*old(self) }),
    {
        if self.find_stream(stream_id).is_some() || self.find_stream_by_name(&name).is_some() {
            return Err(LogError::AlreadyExists);
        }
        let ghost before = self.streams@;
        match Stream::create(stream_id, name, share(&self.config), created_at) {
            Ok(stream) => {
                proof {
                    lemma_total_push(stream_counters(before), stream.counters);
                    lemma_first_index_found(stream_ids(before), stream_id);
                    lemma_first_index_found(stream_names(before), name@);
                    assert(stream_counters(before.push(stream)) =~= stream_counters(before).push(
                        stream.counters,
                    ));
                    let ids = stream_ids(before.push(stream));
                    let names = stream_names(before.push(stream));
                    assert forall|i: int, j: int| 0 <= i < j < ids.len() implies ids[i]
                        != ids[j] by {
                        if j < before.len() {
                            assert(stream_ids(before)[i] != stream_ids(before)[j]);
                        } else {
                            assert(stream_ids(before)[i] != stream_id);
                        }
                    }
                    assert forall|i: int, j: int| 0 <= i < j < names.len() implies names[i]
                        != names[j] by {
                        if j < before.len() {
                            assert(stream_names(before)[i] != stream_names(before)[j]);
                        } else {
                            assert(stream_names(before)[i] != name@);
                        }
                    }
                }
                self.streams.push(stream);
                proof {
                    assert forall|i: int| 0 <= i < self.streams@.len() implies self.carries(
                        #[trigger] self.streams@[i],
                    ) by {
                        if i < before.len() {
                            assert(self.streams@[i] == before[i]);
                            assert(old(self).carries(before[i]));
                        }
                    }
                }
                Ok(())
            },
            Err(_) => unreached(),
        }
    }

    /// Takes the stream `stream_id` out of the system, and what it holds
    /// off the counters. Returns the stream, whose files are to be removed.
    #[verifier::rlimit(30)]
    pub fn delete_stream(&mut self, stream_id: u32) -> (result: Result<Stream, LogError>)
        requires
            old(self).wf(),
        ensures
            final(self).wf(),
            result is Ok <==> old(self).index_of(stream_id) < old(self).streams@.len(),
            result matches Err(error) ==> error == LogError::NotFound && *final(self) == *old(self),
            result matches Ok(stream) ==> {
                let at = old(self).index_of(stream_id);
                &&& stream == old(self).streams@[at]
                &&& stream.id == stream_id
                &&& final(self).streams@ == old(self).streams@.remove(at)
                &&& final(self).counters.size_bytes == old(self).counters.size_bytes
                    - stream.counters.size_bytes
                &&& final(self).counters.messages_count == old(self).counters.messages_count
                    - stream.counters.messages_count
            },
            *final(self) == (System {
                streams: final(self).streams,
                counters: final(self).counters,
                ..*old(self)
            }),
    {
        let at = match self.find_stream(stream_id) {
            Some(at) => at,
            None => {
                return Err(LogError::NotFound);
            },
        };
        let ghost before = self.streams@;
        let stream = self.streams.remove(at);
        proof {
            lemma_total_remove(stream_counters(before), at as int);
            lemma_total_update(stream_counters(before), at as int, stream.counters);
            assert(stream_counters(self.streams@) =~= stream_counters(before).remove(at as int));
            assert(old(self).carries(before[at as int]));
            let ids = stream_ids(self.streams@);
            let names = stream_names(self.streams@);
            assert forall|i: int, j: int| 0 <= i < j < ids.len() implies ids[i] != ids[j] by {
                let a = if i < at { i } else { i + 1 };
                let b = if j < at { j } else { j + 1 };
                assert(stream_ids(before)[a] != stream_ids(before)[b]);
            }
            assert forall|i: int, j: int| 0 <= i < j < names.len() implies names[i]
                != names[j] by {
                let a = if i < at { i } else { i + 1 };
                let b = if j < at { j } else { j + 1 };
                assert(stream_names(before)[a] != stream_names(before)[b]);
            }
            assert forall|i: int| 0 <= i < self.streams@.len() implies self.carries(
                #[trigger] self.streams@[i],
            ) by {
                let a = if i < at { i } else { i + 1 };
                assert(self.streams@[i] == before[a]);
                assert(old(self).carries(before[a]));
            }
        }
        self.counters = Counters {
            size_bytes: self.counters.size_bytes - stream.counters.size_bytes,
            messages_count: self.counters.messages_count - stream.counters.messages_count,
        };
        proof {
            self.lemma_bound();
        }
        Ok(stream)
    }

    /// Adds an empty topic with `partitions_count` partitions to the stream
    /// `stream_id`, as `Stream::create_topic` does.
    pub fn create_topic(
        &mut self,
        stream_id: u32,
        topic_id: u32,
        name: String,
        partitions_count: u32,
        message_expiry: Option<u32>,
        max_topic_size: u64,
        created_at: u64,
    ) -> (result: Result<(), LogError>)
        requires
            old(self).wf(),
        ensures
            final(self).wf(),
            result == Err::<(), LogError>(LogError::NotFound) <==> old(self).index_of(stream_id)
                >= old(self).streams@.len(),
            result == Err::<(), LogError>(LogError::AlreadyExists) <==> old(self).index_of(
                stream_id,
            ) < old(self).streams@.len() && !(old(self).streams@[old(self).index_of(
                stream_id,
            )].index_of(topic_id) >= old(self).streams@[old(self).index_of(
                stream_id,
            )].topics@.len() && old(self).streams@[old(self).index_of(stream_id)].index_of_name(
                name@,
            ) >= old(self).streams@[old(self).index_of(stream_id)].topics@.len()),
            result is Err ==> *final(self) == *old(self) && (result == Err::<(), LogError>(
                LogError::NotFound,
            ) || result == Err::<(), LogError>(LogError::AlreadyExists)),
            result is Ok ==> {
                let at = old(self).index_of(stream_id);
                let before = old(self).streams@[at];
                let after = final(self).streams@[at];
                let topic = after.topics@.last();
                &&& final(self).streams@ == old(self).streams@.update(at, after)
                &&& after == (Stream { topics: after.topics, ..before })
                &&& after.topics@ == before.topics@.push(topic)
                &&& topic.id == topic_id
                &&& topic.name == name
                &&& topic.stream_id == stream_id
                &&& topic.message_expiry == message_expiry
                &&& topic.max_topic_size == max_topic_size
                &&& topic.created_at == created_at
                &&& topic.partitions@.len() == partitions_count
                &&& topic.counters == (Counters { size_bytes: 0, messages_count: 0 })
            },
            *final(self) == (System { streams: final(self).streams, ..*old(self) }),
    {
        let at = match self.find_stream(stream_id) {
            Some(at) => at,
            None => {
                return Err(LogError::NotFound);
            },
        };
        let ghost before = self.streams@;
        proof {
            assert(self.carries(before[at as int]));
        }
        if self.streams[at].find_topic(topic_id).is_some() || self.streams[at].find_topic_by_name(
            &name,
        ).is_some() {
            return Err(LogError::AlreadyExists);
        }
        let result = self.streams[at].create_topic(
            topic_id,
            name,
            partitions_count,
            message_expiry,
            max_topic_size,
            created_at,
        );
        proof {
            self.lemma_child_changed(before, at as int);
        }
        result
    }

    /// Takes the topic `topic_id` out of the stream `stream_id`, and what
    /// it holds off the counters of the stream and of the system. Returns
    /// the topic, whose files are to be removed.
    pub fn delete_topic(&mut self, stream_id: u32, topic_id: u32) -> (result: Result<
        Topic,
        LogError,
    >)
        requires
            old(self).wf(),
        ensures
            final(self).wf(),
            result is Ok <==> old(self).index_of(stream_id) < old(self).streams@.len() && old(self).streams@[old(self).index_of(stream_id)].index_of(topic_id) < old(self).streams@[old(self).index_of(stream_id)].topics@.len(),
            result matches Err(error) ==> error == LogError::NotFound && *final(self) == *old(self),
            result matches Ok(topic) ==> {
                let at = old(self).index_of(stream_id);
                let before = old(self).streams@[at];
                let after = final(self).streams@[at];
                &&& final(self).streams@ == old(self).streams@.update(at, after)
                &&& topic == before.topics@[before.index_of(topic_id)]
                &&& topic.id == topic_id
                &&& after.topics@ == before.topics@.remove(before.index_of(topic_id))
                &&& after.counters.size_bytes == before.counters.size_bytes
                    - topic.counters.size_bytes
                &&& after.counters.messages_count == before.counters.messages_count
                    - topic.counters.messages_count
                &&& after == (Stream { topics: after.topics, counters: after.counters, ..before })
                &&& final(self).counters.size_bytes == old(self).counters.size_bytes
                    - topic.counters.size_bytes
                &&& final(self).counters.messages_count == old(self).counters.messages_count
                    - topic.counters.messages_count
            },
            *final(self) == (System {
                streams: final(self).streams,
                counters: final(self).counters,
                ..*old(self)
            }),
    {
        let at = match self.find_stream(stream_id) {
            Some(at) => at,
            None => {
                return Err(LogError::NotFound);
            },
        };
        let ghost before = self.streams@;
        proof {
            assert(self.carries(before[at as int]));
        }
        if self.streams[at].find_topic(topic_id).is_none() {
            return Err(LogError::NotFound);
        }
        match self.streams[at].delete_topic(topic_id) {
            Ok(topic) => {
                proof {
                    self.lemma_child_changed(before, at as int);
                }
                self.counters = Counters {
                    size_bytes: self.counters.size_bytes - topic.counters.size_bytes,
                    messages_count: self.counters.messages_count - topic.counters.messages_count,
                };
                proof {
                    self.lemma_bound();
                }
                Ok(topic)
            },
            Err(error) => unreached(),
        }
    }

    /// What an append to the partition `partition_id` of the topic
    /// `topic_id` of the stream `stream_id` returns where it is refused:
    /// `NotFound` where one of the three is missing, `TooLarge` where the
    /// stream does not take the messages or the system's byte counter
    /// would pass the largest `u64`.
    pub open spec fn refusal(
        &self,
        stream_id: u32,
        topic_id: u32,
        partition_id: u32,
        messages: Seq<MessageView>,
    ) -> Option<LogError> {
        let at = self.index_of(stream_id);
        if at >= self.streams@.len() {
            Some(LogError::NotFound)
        } else if self.streams@[at].refusal(topic_id, partition_id, messages) is Some {
            self.streams@[at].refusal(topic_id, partition_id, messages)
        } else if self.counters.size_bytes + log_bytes(messages).len() > u64::MAX {
            Some(LogError::TooLarge)
        } else {
            None
        }
    }

    /// Whether `after` is this system with `messages` appended at `now` to
    /// the partition `partition_id` of the topic `topic_id` of the stream
    /// `stream_id`, as `Stream::append_messages` appends them, and counted.
    pub open spec fn grows_to(
        &self,
        after: System,
        stream_id: u32,
        topic_id: u32,
        partition_id: u32,
        messages: Seq<MessageView>,
        now: u64,
    ) -> bool {
        let at = self.index_of(stream_id);
        &&& after.streams@ == self.streams@.update(at, after.streams@[at])
        &&& self.streams@[at].grows_to(after.streams@[at], topic_id, partition_id, messages, now)
        &&& after.counters.size_bytes == self.counters.size_bytes + log_bytes(messages).len()
        &&& after.counters.messages_count == self.counters.messages_count + messages.len()
        &&& after == (System { streams: after.streams, counters: after.counters, ..*self })
    }

    /// Appends `messages` to the partition `partition_id` of the topic
    /// `topic_id` of the stream `stream_id` at `now`, as
    /// `Partition::append_messages` does, and adds what was appended to the
    /// counters of the partition, the topic, the stream and the system.
    /// Returns the bytes and messages added. A refused call changes
    /// nothing.
    pub fn append_messages(
        &mut self,
        stream_id: u32,
        topic_id: u32,
        partition_id: u32,
        messages: Vec<Message>,
        now: u64,
    ) -> (result: Result<Counters, LogError>)
        requires
            old(self).wf(),
        ensures
            final(self).wf(),
            result is Err <==> old(self).refusal(
                stream_id,
                topic_id,
                partition_id,
                views(messages@),
            ) is Some,
            result matches Err(error) ==> old(self).refusal(
                stream_id,
                topic_id,
                partition_id,
                views(messages@),
            ) == Some(error) && *final(self) == *old(self),
            result matches Ok(growth) ==> old(self).grows_to(
                *final(self),
                stream_id,
                topic_id,
                partition_id,
                views(messages@),
                now,
            ) && growth.size_bytes == log_bytes(views(messages@)).len() && growth.messages_count
                == messages@.len(),
    {
        let at = match self.find_stream(stream_id) {
            Some(at) => at,
            None => {
                return Err(LogError::NotFound);
            },
        };
        let ghost before = self.streams@;
        proof {
            assert(self.carries(before[at as int]));
        }
        match self.streams[at].measure(topic_id, partition_id, &messages) {
            Ok(total) => {
                if total > u64::MAX - self.counters.size_bytes {
                    return Err(LogError::TooLarge);
                }
            },
            Err(error) => {
                return Err(error);
            },
        }
        let appended = self.streams[at].append_messages(topic_id, partition_id, messages, now);
        let growth = match appended {
            Ok(growth) => growth,
            Err(_) => unreached(),
        };
        proof {
            self.lemma_child_changed(before, at as int);
            lemma_log_bytes_len(views(messages@));
        }
        self.counters = Counters {
            size_bytes: self.counters.size_bytes + growth.size_bytes,
            messages_count: self.counters.messages_count + growth.messages_count,
        };
        Ok(growth)
    }

    /// Up to `count` messages of a partition for the consumer
    /// `consumer_id`, as `Partition::get_messages_by_consumer` reads them
    /// and moves the consumer.
    pub fn get_messages_by_consumer(
        &mut self,
        stream_id: u32,
        topic_id: u32,
        partition_id: u32,
        consumer_id: u32,
        count: u32,
    ) -> (result: Result<Vec<Message>, LogError>)
        requires
            old(self).wf(),
        ensures
            final(self).wf(),
            result is Ok <==> {
                let s = old(self).index_of(stream_id);
                let stream = old(self).streams@[s];
                let t = stream.index_of(topic_id);
                &&& s < old(self).streams@.len()
                &&& t < stream.topics@.len()
                &&& stream.topics@[t].index_of(partition_id) < stream.topics@[t].partitions@.len()
            },
            result matches Err(error) ==> error == LogError::NotFound && *final(self) == *old(self),
            result matches Ok(read) ==> {
                let s = old(self).index_of(stream_id);
                let stream = old(self).streams@[s];
                let topic = stream.topics@[stream.index_of(topic_id)];
                &&& final(self).streams@ == old(self).streams@.update(s, final(self).streams@[s])
                &&& stream.polled_as(
                    final(self).streams@[s],
                    topic_id,
                    partition_id,
                    consumer_id,
                    count,
                )
                &&& views(read@) == topic.partitions@[topic.index_of(partition_id)].due(
                    consumer_id,
                    count,
                )
            },
            *final(self) == (System { streams: final(self).streams, ..*old(self) }),
    {
        let at = match self.find_stream(stream_id) {
            Some(at) => at,
            None => {
                return Err(LogError::NotFound);
            },
        };
        let ghost before = self.streams@;
        proof {
            assert(self.carries(before[at as int]));
        }
        let known = match self.streams[at].get_topic(topic_id) {
            Ok(topic) => topic.find_partition(partition_id).is_some(),
            Err(_) => false,
        };
        if !known {
            return Err(LogError::NotFound);
        }
        let result = self.streams[at].get_messages_by_consumer(
            topic_id,
            partition_id,
            consumer_id,
            count,
        );
        proof {
            self.lemma_child_changed(before, at as int);
        }
        result
    }

    /// Deletes every message of the partition `partition_id` of the topic
    /// `topic_id` of the stream `stream_id`, as `Partition::purge` does,
    /// and takes what it held off the counters of the topic, the stream
    /// and the system. Returns the deleted segments, whose files are to be
    /// removed, and what they held.
    pub fn purge_partition(&mut self, stream_id: u32, topic_id: u32, partition_id: u32) -> (result:
        Result<(Vec<Segment>, Counters), LogError>)
        requires
            old(self).wf(),
        ensures
            final(self).wf(),
            result is Ok <==> {
                let s = old(self).index_of(stream_id);
                let stream = old(self).streams@[s];
                let t = stream.index_of(topic_id);
                &&& s < old(self).streams@.len()
                &&& t < stream.topics@.len()
                &&& stream.topics@[t].index_of(partition_id) < stream.topics@[t].partitions@.len()
            },
            result matches Err(error) ==> error == LogError::NotFound && *final(self) == *old(self),
            result matches Ok(removed) ==> {
                let s = old(self).index_of(stream_id);
                let stream = old(self).streams@[s];
                let topic = stream.topics@[stream.index_of(topic_id)];
                let partition = topic.partitions@[topic.index_of(partition_id)];
                &&& final(self).streams@ == old(self).streams@.update(s, final(self).streams@[s])
                &&& stream.purged_to(final(self).streams@[s], topic_id, partition_id)
                &&& removed.0@ == partition.segments@
                &&& removed.1 == partition.counters
                &&& final(self).counters.size_bytes == old(self).counters.size_bytes
                    - removed.1.size_bytes
                &&& final(self).counters.messages_count == old(self).counters.messages_count
                    - removed.1.messages_count
                &&& *final(self) == (System {
                    streams: final(self).streams,
                    counters: final(self).counters,
                    ..*old(self)
                })
            },
    {
        let at = match self.find_stream(stream_id) {
            Some(at) => at,
            None => {
                return Err(LogError::NotFound);
            },
        };
        let ghost before = self.streams@;
        proof {
            assert(self.carries(before[at as int]));
        }
        let known = match self.streams[at].get_topic(topic_id) {
            Ok(topic) => topic.find_partition(partition_id).is_some(),
            Err(_) => false,
        };
        if !known {
            return Err(LogError::NotFound);
        }
        let removed = match self.streams[at].purge_partition(topic_id, partition_id) {
            Ok(removed) => removed,
            Err(_) => unreached(),
        };
        proof {
            self.lemma_child_changed(before, at as int);
        }
        self.counters = Counters {
            size_bytes: self.counters.size_bytes - removed.1.size_bytes,
            messages_count: self.counters.messages_count - removed.1.messages_count,
        };
        proof {
            self.lemma_bound();
        }
        Ok(removed)
    }

    /// Applies retention to every topic of every stream at `now`, as
    /// `Stream::apply_retention` does, and takes what was deleted off the
    /// system's counters. Returns the deleted segments, whose files are to
    /// be removed, and what they held.
    pub fn apply_retention(&mut self, now: u64) -> (removed: (Vec<Segment>, Counters))
        requires
            old(self).wf(),
        ensures
            final(self).wf(),
            final(self).streams@.len() == old(self).streams@.len(),
            forall|i: int|
                0 <= i < old(self).streams@.len() ==> old(self).streams@[i].retained_as(
                    #[trigger] final(self).streams@[i],
                    now,
                ),
            final(self).counters.size_bytes == old(self).counters.size_bytes
                - removed.1.size_bytes,
            final(self).counters.messages_count == old(self).counters.messages_count
                - removed.1.messages_count,
            *final(self) == (System {
                streams: final(self).streams,
                counters: final(self).counters,
                ..*old(self)
            }),
    {
        let mut removed: Vec<Segment> = Vec::new();
        let mut released = Counters { size_bytes: 0, messages_count: 0 };
        let total = self.streams.len();
        let mut at: usize = 0;
        while at < total
            invariant
                at <= total == self.streams@.len() == old(self).streams@.len(),
                self.wf(),
                forall|i: int|
                    0 <= i < at ==> old(self).streams@[i].retained_as(
                        #[trigger] self.streams@[i],
                        now,
                    ),
                forall|i: int|
                    at <= i < total ==> (#[trigger] self.streams@[i]) == old(self).streams@[i],
                self.counters.size_bytes + released.size_bytes == old(self).counters.size_bytes,
                self.counters.messages_count + released.messages_count
                    == old(self).counters.messages_count,
                *self == (System { streams: self.streams, counters: self.counters, ..*old(self) }),
            decreases total - at,
        {
            let ghost before = self.streams@;
            proof {
                assert(self.carries(before[at as int]));
            }
            let (mut gone, freed) = self.streams[at].apply_retention(now);
            removed.append(&mut gone);
            proof {
                self.lemma_child_changed(before, at as int);
                assert forall|i: int| 0 <= i < at + 1 implies old(self).streams@[i].retained_as(
                    #[trigger] self.streams@[i],
                    now,
                ) by {
                    if i != at {
                        assert(self.streams@[i] == before[i]);
                    }
                }
            }
            self.counters = Counters {
                size_bytes: self.counters.size_bytes - freed.size_bytes,
                messages_count: self.counters.messages_count - freed.messages_count,
            };
            released = Counters {
                size_bytes: released.size_bytes + freed.size_bytes,
                messages_count: released.messages_count + freed.messages_count,
            };
            proof {
                self.lemma_bound();
            }
            at = at + 1;
        }
        (removed, released)
    }

    /// The counters of the system are the sums of the counters of its
    /// streams.
    pub proof fn lemma_counters_add_up(&self)
        requires
            self.wf(),
        ensures
            self.counters.size_bytes == total_bytes(stream_counters(self.streams@)),
            self.counters.messages_count == total_messages(stream_counters(self.streams@)),
            forall|i: int| 0 <= i < self.streams@.len() ==> (#[trigger] self.streams@[i]).wf(),
    {
        assert forall|i: int| 0 <= i < self.streams@.len() implies (
        #[trigger] self.streams@[i]).wf() by {
            assert(self.carries(self.streams@[i]));
        }
    }

    /// Adds the topic that `files` hold to the stream `stream_id`, built as
    /// `Topic::load` builds it, and counts what it holds in the stream and
    /// in the system. The value returned says whether a load has cut bytes
    /// off a file.
    ///
    /// Refused, with nothing changed: with `NotFound` where there is no
    /// such stream; with `AlreadyExists` where a topic of the stream has
    /// the id or the name; else as `Topic::load` refuses the files; else
    /// with `TooLarge` where the system's byte counter would pass the
    /// largest `u64`.
    pub fn load_topic(
        &mut self,
        stream_id: u32,
        topic_id: u32,
        name: String,
        message_expiry: Option<u32>,
        max_topic_size: u64,
        created_at: u64,
        files: Vec<PartitionFiles>,
    ) -> (result: Result<bool, LogError>)
        requires
            old(self).wf(),
        ensures
            final(self).wf(),
            result is Ok <==> {
                let at = old(self).index_of(stream_id);
                let stream = old(self).streams@[at];
                &&& at < old(self).streams@.len()
                &&& stream.index_of(topic_id) >= stream.topics@.len()
                &&& stream.index_of_name(name@) >= stream.topics@.len()
                &&& loadable(files@)
                &&& old(self).counters.size_bytes + held_bytes(files@) <= u64::MAX
            },
            result is Err ==> *final(self) == *old(self),
            old(self).index_of(stream_id) >= old(self).streams@.len() ==> result
                == Err::<bool, LogError>(LogError::NotFound),
            result matches Ok(recovered) ==> {
                let at = old(self).index_of(stream_id);
                let before = old(self).streams@[at];
                let after = final(self).streams@[at];
                let topic = after.topics@.last();
                &&& final(self).streams@ == old(self).streams@.update(at, after)
                &&& after.topics@ == before.topics@.push(topic)
                &&& after == (Stream { topics: after.topics, counters: after.counters, ..before })
                &&& topic.holds_files(files@)
                &&& topic.id == topic_id
                &&& topic.name == name
                &&& topic.message_expiry == message_expiry
                &&& topic.max_topic_size == max_topic_size
                &&& topic.created_at == created_at
                &&& recovered <==> any_cut_in(files@)
                &&& final(self).counters.size_bytes == old(self).counters.size_bytes
                    + topic.counters.size_bytes
                &&& final(self).counters.messages_count == old(self).counters.messages_count
                    + topic.counters.messages_count
                &&& *final(self) == (System {
                    streams: final(self).streams,
                    counters: final(self).counters,
                    ..*old(self)
                })
            },
    {
        let at = match self.find_stream(stream_id) {
            Some(at) => at,
            None => {
                return Err(LogError::NotFound);
            },
        };
        let ghost before = self.streams@;
        proof {
            assert(self.carries(before[at as int]));
            lemma_total_update(stream_counters(before), at as int, before[at as int].counters);
        }
        if self.streams[at].find_topic(topic_id).is_some() || self.streams[at].find_topic_by_name(
            &name,
        ).is_some() {
            return Err(LogError::AlreadyExists);
        }
        let loaded = Topic::load(
            stream_id,
            topic_id,
            name,
            share(&self.config),
            message_expiry,
            max_topic_size,
            created_at,
            files,
        );
        let (topic, recovered) = match loaded {
            Ok(built) => built,
            Err(error) => {
                return Err(error);
            },
        };
        if topic.counters.size_bytes > u64::MAX - self.counters.size_bytes {
            return Err(LogError::TooLarge);
        }
        let size = topic.counters.size_bytes;
        let count = topic.counters.messages_count;
        self.streams[at].adopt(topic);
        proof {
            self.lemma_child_changed(before, at as int);
        }
        self.counters = Counters {
            size_bytes: self.counters.size_bytes + size,
            messages_count: self.counters.messages_count + count,
        };
        proof {
            self.lemma_bound();
        }
        Ok(recovered)
    }

    /// A message takes at least 45 bytes in every stream, so it does in
    /// their sums.
    proof fn lemma_bound(&self)
        requires
            forall|i: int| 0 <= i < self.streams@.len() ==> (#[trigger] self.streams@[i]).wf(),
        ensures
            45 * total_messages(stream_counters(self.streams@)) <= total_bytes(
                stream_counters(self.streams@),
            ),
    {
        let items = stream_counters(self.streams@);
        assert forall|i: int| 0 <= i < items.len() implies 45 * (#[trigger] items[i]).messages_count
            <= items[i].size_bytes by {
            assert(self.streams@[i].wf());
        }
        crate::topic::lemma_sums_bound(items);
    }

    /// After the stream at `at` changed and kept its id, name and
    /// configuration, the streams are those of the system as before, and
    /// their counters add up to the old sums moved by the stream's change.
    proof fn lemma_child_changed(&self, before: Seq<Stream>, at: int)
        requires
            0 <= at < before.len(),
            self.streams@ == before.update(at, self.streams@[at]),
            self.streams@[at].wf(),
            self.streams@[at].id == before[at].id,
            self.streams@[at].name == before[at].name,
            self.streams@[at].config == before[at].config,
            forall|i: int| 0 <= i < before.len() ==> self.carries(#[trigger] before[i]),
            distinct(stream_ids(before)),
            distinct(stream_names(before)),
        ensures
            forall|i: int| 0 <= i < self.streams@.len() ==> self.carries(#[trigger] self.streams@[i]),
            distinct(stream_ids(self.streams@)),
            distinct(stream_names(self.streams@)),
            total_bytes(stream_counters(self.streams@)) == total_bytes(stream_counters(before))
                - before[at].counters.size_bytes + self.streams@[at].counters.size_bytes,
            total_messages(stream_counters(self.streams@)) == total_messages(
                stream_counters(before),
            ) - before[at].counters.messages_count + self.streams@[at].counters.messages_count,
            before[at].counters.size_bytes <= total_bytes(stream_counters(before)),
            before[at].counters.messages_count <= total_messages(stream_counters(before)),
    {
        let after = self.streams@[at];
        lemma_total_update(stream_counters(before), at, after.counters);
        assert(stream_counters(self.streams@) =~= stream_counters(before).update(
            at,
            after.counters,
        ));
        assert(stream_ids(self.streams@) =~= stream_ids(before));
        assert(stream_names(self.streams@) =~= stream_names(before));
        assert forall|i: int| 0 <= i < self.streams@.len() implies self.carries(
            #[trigger] self.streams@[i],
        ) by {
            if i != at {
                assert(self.streams@[i] == before[i]);
            } else {
                assert(self.carries(before[at]));
            }
        }
    }
}

} // verus!
