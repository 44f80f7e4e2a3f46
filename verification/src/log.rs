//! A segment's log as a sequence of messages.
//!
//! The log file is the concatenation of its messages' records. The indexes
//! that go with it hold one record per message, in the same order.

use vstd::prelude::*;
use crate::index::{Index, TimeIndex};
use crate::message::{decode_at, lemma_decode_encoded, lemma_encoded_len, MessageView};

verus! {

/// The log file that holds `messages`, one record behind the other.
pub open spec fn log_bytes(messages: Seq<MessageView>) -> Seq<u8>
    decreases messages.len(),
{
    if messages.len() == 0 {
        Seq::empty()
    } else {
        log_bytes(messages.drop_last()) + messages.last().encoded()
    }
}

/// Where the record of the `k`-th message starts in the log.
pub open spec fn position(messages: Seq<MessageView>, k: int) -> int {
    log_bytes(messages.take(k)).len() as int
}

/// Every message can be written as a record.
pub open spec fn all_encodable(messages: Seq<MessageView>) -> bool {
    forall|k: int| 0 <= k < messages.len() ==> (#[trigger] messages[k]).encodable()
}

/// The messages' offsets count up from `first`.
pub open spec fn offsets_from(messages: Seq<MessageView>, first: int) -> bool {
    forall|k: int| 0 <= k < messages.len() ==> (#[trigger] messages[k]).offset == first + k
}

/// The messages' timestamps never fall.
#[verifier::opaque]
pub open spec fn timestamps_rise(messages: Seq<MessageView>) -> bool {
    forall|i: int, j: int|
        0 <= i <= j < messages.len() ==> messages[i].timestamp <= messages[j].timestamp
}

/// The offset index that holds one record for each of `messages`.
pub open spec fn dense_index(messages: Seq<MessageView>) -> Seq<Index> {
    Seq::new(
        messages.len(),
        |k: int| Index { relative_offset: k as u32, position: position(messages, k) as u32 },
    )
}

/// The time index that holds one record for each of `messages`.
pub open spec fn dense_time_index(messages: Seq<MessageView>) -> Seq<TimeIndex> {
    Seq::new(
        messages.len(),
        |k: int| TimeIndex { relative_offset: k as u32, timestamp: messages[k].timestamp },
    )
}

/// Writing one more message adds its record behind the log.
pub proof fn lemma_log_bytes_push(messages: Seq<MessageView>, m: MessageView)
    ensures
        log_bytes(messages.push(m)) == log_bytes(messages) + m.encoded(),
        log_bytes(messages.push(m)).len() == log_bytes(messages).len() + m.size(),
{
    assert(messages.push(m).drop_last() =~= messages);
    lemma_encoded_len(m);
}

/// The log of a sequence is the log of its head followed by that of its tail.
pub proof fn lemma_log_bytes_split(messages: Seq<MessageView>, k: int)
    requires
        0 <= k <= messages.len(),
    ensures
        log_bytes(messages) == log_bytes(messages.take(k)) + log_bytes(messages.skip(k)),
    decreases messages.len(),
{
    if k == messages.len() {
        assert(messages.take(k) =~= messages);
        assert(messages.skip(k) =~= Seq::<MessageView>::empty());
        assert(log_bytes(messages) =~= log_bytes(messages) + Seq::<u8>::empty());
    } else {
        let front = messages.drop_last();
        lemma_log_bytes_split(front, k);
        assert(front.take(k) =~= messages.take(k));
        assert(messages.skip(k).drop_last() =~= front.skip(k));
        assert(messages.skip(k).last() == messages.last());
        assert(log_bytes(messages) =~= log_bytes(messages.take(k)) + log_bytes(messages.skip(k)));
    }
}

/// The log of two sequences joined is their logs joined.
pub proof fn lemma_log_bytes_concat(a: Seq<MessageView>, b: Seq<MessageView>)
    ensures
        log_bytes(a + b) == log_bytes(a) + log_bytes(b),
{
    lemma_log_bytes_split(a + b, a.len() as int);
    assert((a + b).take(a.len() as int) =~= a);
    assert((a + b).skip(a.len() as int) =~= b);
}

/// A record takes at least its 45 fixed bytes.
pub proof fn lemma_log_bytes_len(messages: Seq<MessageView>)
    ensures
        log_bytes(messages).len() >= 45 * messages.len(),
    decreases messages.len(),
{
    if messages.len() > 0 {
        lemma_log_bytes_len(messages.drop_last());
        lemma_encoded_len(messages.last());
    }
}

/// Positions grow by the size of the message that they pass, and end at the
/// length of the log.
pub proof fn lemma_position_step(messages: Seq<MessageView>, k: int)
    requires
        0 <= k < messages.len(),
    ensures
        position(messages, k + 1) == position(messages, k) + messages[k].size(),
        position(messages, k + 1) <= log_bytes(messages).len(),
        position(messages, messages.len() as int) == log_bytes(messages).len(),
{
    assert(messages.take(k + 1).drop_last() =~= messages.take(k));
    assert(messages.take(k + 1).last() == messages[k]);
    lemma_encoded_len(messages[k]);
    lemma_log_bytes_split(messages, k + 1);
    assert(messages.take(messages.len() as int) =~= messages);
}

/// Positions of the messages that were there do not move when one is added.
pub proof fn lemma_position_push(messages: Seq<MessageView>, m: MessageView, k: int)
    requires
        0 <= k <= messages.len(),
    ensures
        position(messages.push(m), k) == position(messages, k),
{
    assert(messages.push(m).take(k) =~= messages.take(k));
}

/// The record at the `k`-th position of a log decodes to the `k`-th message
/// and ends where the next record starts.
pub proof fn lemma_decode_in_log(messages: Seq<MessageView>, k: int)
    requires
        0 <= k < messages.len(),
        all_encodable(messages),
    ensures
        decode_at(log_bytes(messages), position(messages, k)) == Some(
            (messages[k], position(messages, k + 1)),
        ),
{
    let before = log_bytes(messages.take(k));
    let after = log_bytes(messages.skip(k + 1));
    lemma_log_bytes_split(messages, k + 1);
    assert(messages.take(k + 1).drop_last() =~= messages.take(k));
    assert(messages.take(k + 1).last() == messages[k]);
    assert(log_bytes(messages) == before + messages[k].encoded() + after);
    assert(messages[k].encodable());
    lemma_decode_encoded(before, messages[k], after);
    lemma_position_step(messages, k);
}

/// Adding a message adds one record to the dense indexes.
pub proof fn lemma_dense_push(messages: Seq<MessageView>, m: MessageView)
    ensures
        dense_index(messages.push(m)) == dense_index(messages).push(
            Index {
                relative_offset: messages.len() as u32,
                position: log_bytes(messages).len() as u32,
            },
        ),
        dense_time_index(messages.push(m)) == dense_time_index(messages).push(
            TimeIndex { relative_offset: messages.len() as u32, timestamp: m.timestamp },
        ),
{
    let more = messages.push(m);
    assert forall|k: int| 0 <= k <= messages.len() implies position(more, k) == position(
        messages,
        k,
    ) by {
        lemma_position_push(messages, m, k);
    }
    assert(messages.take(messages.len() as int) =~= messages);
    assert(dense_index(more) =~= dense_index(messages).push(
        Index {
            relative_offset: messages.len() as u32,
            position: log_bytes(messages).len() as u32,
        },
    ));
    assert(dense_time_index(more) =~= dense_time_index(messages).push(
        TimeIndex { relative_offset: messages.len() as u32, timestamp: m.timestamp },
    ));
}

/// A sequence with one more message rises exactly if it rose before and the
/// new message is no earlier than the last.
pub proof fn lemma_rise_push(messages: Seq<MessageView>, m: MessageView)
    ensures
        timestamps_rise(messages.push(m)) <==> timestamps_rise(messages) && (messages.len() == 0
            || messages.last().timestamp <= m.timestamp),
{
    reveal(timestamps_rise);
    let more = messages.push(m);
    if timestamps_rise(more) {
        assert forall|i: int, j: int| 0 <= i <= j < messages.len() implies messages[i].timestamp
            <= messages[j].timestamp by {
            assert(more[i].timestamp <= more[j].timestamp);
        }
        if messages.len() > 0 {
            assert(more[messages.len() - 1].timestamp <= more[messages.len() as int].timestamp);
        }
    }
    if timestamps_rise(messages) && (messages.len() == 0 || messages.last().timestamp
        <= m.timestamp) {
        assert forall|i: int, j: int| 0 <= i <= j < more.len() implies more[i].timestamp
            <= more[j].timestamp by {
            if j < messages.len() {
                assert(messages[i].timestamp <= messages[j].timestamp);
            } else if i < messages.len() {
                assert(messages[i].timestamp <= messages[messages.len() - 1].timestamp);
            }
        }
    }
}

/// Two runs of offsets, the second continuing the first, make one run.
pub proof fn lemma_concat_continues(a: Seq<MessageView>, b: Seq<MessageView>, first: int)
    requires
        offsets_from(a, first),
        offsets_from(b, first + a.len()),
        all_encodable(a),
        all_encodable(b),
    ensures
        offsets_from(a + b, first),
        all_encodable(a + b),
{
    assert forall|k: int| 0 <= k < (a + b).len() implies (#[trigger] (a + b)[k]).offset == first
        + k && (a + b)[k].encodable() by {
        if k < a.len() {
            assert(a[k].offset == first + k);
            assert(a[k].encodable());
        } else {
            assert(b[k - a.len()].offset == first + a.len() + (k - a.len()));
            assert(b[k - a.len()].encodable());
        }
    }
}

/// In a dense offset index, relative offsets grow strictly, and so do the
/// positions, as long as the log stays below 4 GiB.
pub proof fn lemma_dense_index_increases(messages: Seq<MessageView>)
    requires
        log_bytes(messages).len() <= u32::MAX,
    ensures
        crate::index::offsets_increase(dense_index(messages)),
        messages.len() <= u32::MAX,
        forall|k: int|
            0 <= k <= messages.len() ==> 0 <= #[trigger] position(messages, k) <= log_bytes(
                messages,
            ).len(),
        forall|i: int, j: int|
            0 <= i < j <= messages.len() ==> #[trigger] position(messages, i) < #[trigger] position(
                messages,
                j,
            ),
{
    lemma_log_bytes_len(messages);
    assert forall|i: int, j: int| 0 <= i <= j <= messages.len() implies #[trigger] position(
        messages,
        j,
    ) - #[trigger] position(messages, i) >= 45 * (j - i) && position(messages, j) <= log_bytes(
        messages,
    ).len() by {
        lemma_log_bytes_split(messages, j);
        lemma_log_bytes_split(messages.take(j), i);
        assert(messages.take(j).take(i) =~= messages.take(i));
        lemma_log_bytes_len(messages.take(j).skip(i));
    }
    assert forall|k: int| 0 <= k <= messages.len() implies 0 <= #[trigger] position(messages, k)
        <= log_bytes(messages).len() by {
        assert(position(messages, k) - position(messages, k) >= 45 * (k - k) && position(
            messages,
            k,
        ) <= log_bytes(messages).len());
    }
}

/// How many messages of a log whose timestamps rise are earlier than
/// `timestamp`: they are its first ones.
pub open spec fn older(messages: Seq<MessageView>, timestamp: u64) -> int
    decreases messages.len(),
{
    if messages.len() == 0 || messages.last().timestamp < timestamp {
        messages.len() as int
    } else {
        older(messages.drop_last(), timestamp)
    }
}

/// A cut of a log with the messages earlier than `timestamp` on its left
/// and the others on its right is where `older` says.
pub proof fn lemma_older(messages: Seq<MessageView>, timestamp: u64, cut: int)
    requires
        0 <= cut <= messages.len(),
        forall|i: int| 0 <= i < cut ==> (#[trigger] messages[i]).timestamp < timestamp,
        forall|i: int| cut <= i < messages.len() ==> (#[trigger] messages[i]).timestamp >= timestamp,
    ensures
        older(messages, timestamp) == cut,
    decreases messages.len(),
{
    if messages.len() > cut {
        let front = messages.drop_last();
        assert(messages.last() == messages[messages.len() - 1]);
        assert forall|i: int| 0 <= i < cut implies (#[trigger] front[i]).timestamp < timestamp by {
            assert(front[i] == messages[i]);
        }
        assert forall|i: int| cut <= i < front.len() implies (#[trigger] front[i]).timestamp
            >= timestamp by {
            assert(front[i] == messages[i]);
        }
        lemma_older(front, timestamp, cut);
    } else if messages.len() > 0 {
        assert(messages.last() == messages[cut - 1]);
    }
}

/// Two rising runs joined rise exactly if the second does not start before
/// the first ends.
pub proof fn lemma_rise_concat(a: Seq<MessageView>, b: Seq<MessageView>)
    requires
        timestamps_rise(a),
        timestamps_rise(b),
    ensures
        timestamps_rise(a + b) <==> a.len() == 0 || b.len() == 0 || a.last().timestamp
            <= b[0].timestamp,
{
    reveal(timestamps_rise);
    let all = a + b;
    if a.len() == 0 || b.len() == 0 || a.last().timestamp <= b[0].timestamp {
        assert forall|i: int, j: int| 0 <= i <= j < all.len() implies all[i].timestamp
            <= all[j].timestamp by {
            if j < a.len() {
                assert(a[i].timestamp <= a[j].timestamp);
            } else if i >= a.len() {
                assert(b[i - a.len()].timestamp <= b[j - a.len()].timestamp);
            } else {
                assert(a[i].timestamp <= a[a.len() - 1].timestamp);
                assert(b[0].timestamp <= b[j - a.len()].timestamp);
            }
        }
    }
    if timestamps_rise(all) && a.len() > 0 && b.len() > 0 {
        assert(all[a.len() - 1].timestamp <= all[a.len() as int].timestamp);
    }
}

/// Along a run whose timestamps rise, an earlier message has no later
/// timestamp than a later one; an empty run rises.
pub proof fn lemma_rise(messages: Seq<MessageView>)
    ensures
        timestamps_rise(messages) <==> forall|i: int, j: int|
            0 <= i <= j < messages.len() ==> messages[i].timestamp <= messages[j].timestamp,
        messages.len() == 0 ==> timestamps_rise(messages),
{
    reveal(timestamps_rise);
}

} // verus!
