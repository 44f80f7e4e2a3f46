//! A partition's segments as a chain, and the log that the chain holds.
//!
//! The model of a segment is its first offset, its persisted messages and
//! whether it is sealed. A partition's log is the messages of its segments,
//! one segment behind the other.

use vstd::prelude::*;
use crate::log::{lemma_log_bytes_concat, log_bytes, offsets_from, timestamps_rise};
use crate::message::MessageView;

verus! {

/// What a partition's rules read of a segment.
pub struct SegmentModel {
    pub start_offset: u64,
    pub messages: Seq<MessageView>,
    pub is_closed: bool,
}

/// The messages of all segments, oldest first.
pub open spec fn log_of(chain: Seq<SegmentModel>) -> Seq<MessageView>
    decreases chain.len(),
{
    if chain.len() == 0 {
        Seq::empty()
    } else {
        log_of(chain.drop_last()) + chain.last().messages
    }
}

/// The sum of the sizes of the segments' logs.
pub open spec fn size_of(chain: Seq<SegmentModel>) -> nat
    decreases chain.len(),
{
    if chain.len() == 0 {
        0
    } else {
        size_of(chain.drop_last()) + log_bytes(chain.last().messages).len()
    }
}

/// Each segment's offsets count up from its first, and each segment starts
/// where the one before it ends.
pub open spec fn linked(chain: Seq<SegmentModel>) -> bool {
    &&& forall|i: int|
        0 <= i < chain.len() ==> offsets_from(
            (#[trigger] chain[i]).messages,
            chain[i].start_offset as int,
        )
    &&& forall|i: int, j: int|
        0 <= i && j == i + 1 && j < chain.len() ==> (#[trigger] chain[i]).start_offset
            + chain[i].messages.len() == (#[trigger] chain[j]).start_offset
}

/// A partition's chain: linked, sealed and non-empty segments but for the
/// last, which is open.
pub open spec fn chained(chain: Seq<SegmentModel>) -> bool {
    &&& chain.len() > 0
    &&& linked(chain)
    &&& forall|i: int|
        0 <= i < chain.len() - 1 ==> (#[trigger] chain[i]).is_closed && chain[i].messages.len() > 0
    &&& !chain.last().is_closed
}

/// The log of a chain is the log of its first `k` segments followed by the
/// log of the others; the sizes add up likewise.
pub proof fn lemma_log_of_split(chain: Seq<SegmentModel>, k: int)
    requires
        0 <= k <= chain.len(),
    ensures
        log_of(chain) == log_of(chain.take(k)) + log_of(chain.skip(k)),
        size_of(chain) == size_of(chain.take(k)) + size_of(chain.skip(k)),
    decreases chain.len(),
{
    if k == chain.len() {
        assert(chain.take(k) =~= chain);
        assert(chain.skip(k) =~= Seq::<SegmentModel>::empty());
        assert(log_of(chain) =~= log_of(chain) + Seq::<MessageView>::empty());
    } else {
        let front = chain.drop_last();
        lemma_log_of_split(front, k);
        assert(front.take(k) =~= chain.take(k));
        assert(chain.skip(k).drop_last() =~= front.skip(k));
        assert(chain.skip(k).last() == chain.last());
        assert(log_of(chain) =~= log_of(chain.take(k)) + log_of(chain.skip(k)));
    }
}

/// The sizes of the segments add up to the size of the chain's log.
pub proof fn lemma_size_of_log(chain: Seq<SegmentModel>)
    ensures
        size_of(chain) == log_bytes(log_of(chain)).len(),
    decreases chain.len(),
{
    if chain.len() > 0 {
        lemma_size_of_log(chain.drop_last());
        lemma_log_bytes_concat(log_of(chain.drop_last()), chain.last().messages);
    }
}

/// The log of a linked chain counts its offsets up from the chain's first
/// offset, without a gap, and ends where the last segment ends.
pub proof fn lemma_linked_log(chain: Seq<SegmentModel>)
    requires
        chain.len() > 0,
        linked(chain),
    ensures
        offsets_from(log_of(chain), chain[0].start_offset as int),
        chain[0].start_offset + log_of(chain).len() == chain.last().start_offset
            + chain.last().messages.len(),
    decreases chain.len(),
{
    let front = chain.drop_last();
    let last = chain.last();
    if front.len() == 0 {
        assert(log_of(front) =~= Seq::<MessageView>::empty());
        assert(log_of(chain) =~= last.messages);
        assert(last == chain[0]);
    } else {
        assert forall|i: int| 0 <= i < front.len() implies offsets_from(
            (#[trigger] front[i]).messages,
            front[i].start_offset as int,
        ) by {
            assert(front[i] == chain[i]);
        }
        assert forall|i: int, j: int| 0 <= i && j == i + 1 && j < front.len() implies (
        #[trigger] front[i]).start_offset + front[i].messages.len() == (
        #[trigger] front[j]).start_offset by {
            assert(front[i] == chain[i]);
            assert(front[j] == chain[j]);
        }
        lemma_linked_log(front);
        assert(front[0] == chain[0]);
        assert(front.last() == chain[chain.len() - 2]);
        assert(chain[chain.len() - 2].start_offset + chain[chain.len() - 2].messages.len()
            == chain[chain.len() - 1].start_offset);
        let first = chain[0].start_offset as int;
        let log = log_of(chain);
        assert forall|k: int| 0 <= k < log.len() implies (#[trigger] log[k]).offset == first
            + k by {
            if k < log_of(front).len() {
                assert(log[k] == log_of(front)[k]);
            } else {
                let j = k - log_of(front).len();
                assert(log[k] == last.messages[j]);
                assert(last.messages[j].offset == last.start_offset + j);
            }
        }
    }
}

/// In a linked chain, the messages of the `j`-th segment stand in the log
/// where the segment's first offset says.
pub proof fn lemma_segment_in_log(chain: Seq<SegmentModel>, j: int)
    requires
        0 <= j < chain.len(),
        linked(chain),
    ensures
        ({
            let from = chain[j].start_offset - chain[0].start_offset;
            &&& 0 <= from
            &&& from + chain[j].messages.len() <= log_of(chain).len()
            &&& log_of(chain).subrange(from, from + chain[j].messages.len()) == chain[j].messages
            &&& log_of(chain.take(j)).len() == from
        }),
{
    let head = chain.take(j + 1);
    lemma_log_of_split(chain, j + 1);
    assert(head.drop_last() =~= chain.take(j));
    assert(head.last() == chain[j]);
    assert forall|i: int| 0 <= i < head.len() implies offsets_from(
        (#[trigger] head[i]).messages,
        head[i].start_offset as int,
    ) by {
        assert(head[i] == chain[i]);
    }
    assert forall|i: int, j: int| 0 <= i && j == i + 1 && j < head.len() implies (
    #[trigger] head[i]).start_offset + head[i].messages.len() == (
    #[trigger] head[j]).start_offset by {
        assert(head[i] == chain[i]);
        assert(head[j] == chain[j]);
    }
    lemma_linked_log(head);
    assert(head[0] == chain[0]);
    let from = chain[j].start_offset - chain[0].start_offset;
    assert(log_of(head).len() == from + chain[j].messages.len());
    assert(log_of(chain).subrange(from, from + chain[j].messages.len()) =~= chain[j].messages);
}

/// Whether a segment that holds `held` is sealed before a record of
/// `incoming` bytes is written at `now`: its log has reached `threshold`,
/// its newest message has outlived `expiry`, or it holds messages and the
/// record would take its log past `threshold`.
pub open spec fn must_roll(
    held: Seq<MessageView>,
    incoming: nat,
    threshold: u32,
    expiry: Option<u32>,
    now: u64,
) -> bool {
    let size = log_bytes(held).len();
    ||| size >= threshold
    ||| (expiry matches Some(seconds) && held.len() > 0 && held.last().timestamp + seconds
        * 1_000_000 <= now)
    ||| (held.len() > 0 && size + incoming > threshold)
}

/// The chain after its last segment was sealed and an empty, open segment
/// that starts at `at` was added behind it.
pub open spec fn rolled(chain: Seq<SegmentModel>, at: u64) -> Seq<SegmentModel> {
    chain.update(chain.len() - 1, SegmentModel { is_closed: true, ..chain.last() }).push(
        SegmentModel { start_offset: at, messages: Seq::empty(), is_closed: false },
    )
}

/// The chain after `m` was written behind the messages of its last segment.
pub open spec fn written(chain: Seq<SegmentModel>, m: MessageView) -> Seq<SegmentModel> {
    chain.update(
        chain.len() - 1,
        SegmentModel { messages: chain.last().messages.push(m), ..chain.last() },
    )
}

/// The chain after `m` was appended at `now`: behind the last segment's
/// messages or, where that segment must roll, in a new segment that starts
/// at the offset of `m`, behind the sealed one.
pub open spec fn placed(
    chain: Seq<SegmentModel>,
    m: MessageView,
    threshold: u32,
    expiry: Option<u32>,
    now: u64,
) -> Seq<SegmentModel> {
    if must_roll(chain.last().messages, m.size(), threshold, expiry, now) {
        written(rolled(chain, m.offset), m)
    } else {
        written(chain, m)
    }
}

/// The chain after `messages` were appended at `now`, one after the other.
pub open spec fn placed_all(
    chain: Seq<SegmentModel>,
    messages: Seq<MessageView>,
    threshold: u32,
    expiry: Option<u32>,
    now: u64,
) -> Seq<SegmentModel>
    decreases messages.len(),
{
    if messages.len() == 0 {
        chain
    } else {
        placed(
            placed_all(chain, messages.drop_last(), threshold, expiry, now),
            messages.last(),
            threshold,
            expiry,
            now,
        )
    }
}

/// Rolling a chain whose last segment holds messages and ends at `at`
/// leaves a chain with the same log and size.
pub proof fn lemma_rolled(chain: Seq<SegmentModel>, at: u64)
    requires
        chained(chain),
        chain.last().messages.len() > 0,
        at == chain.last().start_offset + chain.last().messages.len(),
    ensures
        chained(rolled(chain, at)),
        log_of(rolled(chain, at)) == log_of(chain),
        size_of(rolled(chain, at)) == size_of(chain),
{
    let last = chain.last();
    let sealed = chain.update(chain.len() - 1, SegmentModel { is_closed: true, ..last });
    let next = rolled(chain, at);
    assert(next.drop_last() =~= sealed);
    assert(sealed.drop_last() =~= chain.drop_last());
    assert(sealed.last().messages == last.messages);
    assert(log_of(sealed) == log_of(chain.drop_last()) + last.messages);
    assert(log_of(chain) == log_of(chain.drop_last()) + last.messages);
    assert(log_of(next) == log_of(sealed) + Seq::<MessageView>::empty());
    assert(log_of(next) =~= log_of(chain));
    assert(size_of(sealed) == size_of(chain.drop_last()) + log_bytes(last.messages).len());
    assert(size_of(chain) == size_of(chain.drop_last()) + log_bytes(last.messages).len());
    assert(size_of(next) == size_of(sealed) + log_bytes(Seq::<MessageView>::empty()).len());
    assert forall|i: int| 0 <= i < next.len() implies offsets_from(
        (#[trigger] next[i]).messages,
        next[i].start_offset as int,
    ) by {
        if i < chain.len() {
            assert(next[i].messages == chain[i].messages);
            assert(offsets_from(chain[i].messages, chain[i].start_offset as int));
        }
    }
    assert forall|i: int, j: int| 0 <= i && j == i + 1 && j < next.len() implies (
    #[trigger] next[i]).start_offset + next[i].messages.len() == (
    #[trigger] next[j]).start_offset by {
        if i < chain.len() - 1 {
            assert(next[i] == chain[i]);
            assert(next[j].start_offset == chain[j].start_offset);
        }
    }
    assert forall|i: int| 0 <= i < next.len() - 1 implies (#[trigger] next[i]).is_closed
        && next[i].messages.len() > 0 by {
        if i < chain.len() - 1 {
            assert(next[i] == chain[i]);
        }
    }
}

/// Writing `m`, whose offset is the one behind the chain, leaves a chain
/// whose log has `m` behind it and whose size has grown by the record.
pub proof fn lemma_written(chain: Seq<SegmentModel>, m: MessageView)
    requires
        chained(chain),
        m.offset == chain.last().start_offset + chain.last().messages.len(),
    ensures
        chained(written(chain, m)),
        log_of(written(chain, m)) == log_of(chain).push(m),
        size_of(written(chain, m)) == size_of(chain) + m.size(),
{
    let last = chain.last();
    let next = written(chain, m);
    assert(next.drop_last() =~= chain.drop_last());
    assert(next.last().messages == last.messages.push(m));
    assert(log_of(next) == log_of(chain.drop_last()) + last.messages.push(m));
    assert(log_of(chain) == log_of(chain.drop_last()) + last.messages);
    assert(log_of(next) =~= log_of(chain).push(m));
    crate::log::lemma_log_bytes_push(last.messages, m);
    assert(size_of(next) == size_of(chain.drop_last()) + log_bytes(last.messages.push(m)).len());
    assert(size_of(chain) == size_of(chain.drop_last()) + log_bytes(last.messages).len());
    assert forall|i: int| 0 <= i < next.len() implies offsets_from(
        (#[trigger] next[i]).messages,
        next[i].start_offset as int,
    ) by {
        assert(offsets_from(chain[i].messages, chain[i].start_offset as int));
        if i == chain.len() - 1 {
            assert forall|k: int| 0 <= k < next[i].messages.len() implies (
            #[trigger] next[i].messages[k]).offset == next[i].start_offset + k by {
                if k < last.messages.len() {
                    assert(last.messages[k].offset == last.start_offset + k);
                }
            }
        } else {
            assert(next[i] == chain[i]);
        }
    }
    assert forall|i: int, j: int| 0 <= i && j == i + 1 && j < next.len() implies (
    #[trigger] next[i]).start_offset + next[i].messages.len() == (
    #[trigger] next[j]).start_offset by {
        assert(next[i] == chain[i]);
        assert(next[j].start_offset == chain[j].start_offset);
    }
    assert forall|i: int| 0 <= i < next.len() - 1 implies (#[trigger] next[i]).is_closed
        && next[i].messages.len() > 0 by {
        assert(next[i] == chain[i]);
    }
}

/// A suffix of a rising run of timestamps rises, and so does a prefix.
pub proof fn lemma_rise_parts(messages: Seq<MessageView>, k: int)
    requires
        0 <= k <= messages.len(),
        timestamps_rise(messages),
    ensures
        timestamps_rise(messages.skip(k)),
        timestamps_rise(messages.take(k)),
{
    reveal(timestamps_rise);
    assert forall|i: int, j: int| 0 <= i <= j < messages.skip(k).len() implies messages.skip(
        k,
    )[i].timestamp <= messages.skip(k)[j].timestamp by {
        assert(messages[i + k].timestamp <= messages[j + k].timestamp);
    }
    assert forall|i: int, j: int| 0 <= i <= j < messages.take(k).len() implies messages.take(
        k,
    )[i].timestamp <= messages.take(k)[j].timestamp by {
        assert(messages[i].timestamp <= messages[j].timestamp);
    }
}

/// A run of a log that ends where a run of one of its segments starts,
/// followed by that run, is one run of the log.
pub proof fn lemma_runs_join(
    log: Seq<MessageView>,
    held: Seq<MessageView>,
    base: int,
    from: int,
    read: int,
    got: int,
)
    requires
        0 <= base,
        base + held.len() <= log.len(),
        held == log.subrange(base, base + held.len()),
        0 <= from <= from + read,
        0 <= got,
        base <= from + read,
        from + read + got <= base + held.len(),
    ensures
        log.subrange(from, from + read) + held.subrange(
            from + read - base,
            from + read - base + got,
        ) == log.subrange(from, from + read + got),
{
    assert(log.subrange(from, from + read) + held.subrange(
        from + read - base,
        from + read - base + got,
    ) =~= log.subrange(from, from + read + got));
}

/// How many segments at the head of a chain are sealed with a newest
/// message no later than `cutoff`. Timestamps rise along a chain, so these
/// are all the segments of that kind.
pub open spec fn stale(chain: Seq<SegmentModel>, cutoff: u64) -> int
    decreases chain.len(),
{
    if chain.len() == 0 {
        0
    } else if is_stale(chain.last(), cutoff) {
        chain.len() as int
    } else {
        stale(chain.drop_last(), cutoff)
    }
}

/// A sealed segment whose newest message is no later than `cutoff`.
pub open spec fn is_stale(segment: SegmentModel, cutoff: u64) -> bool {
    segment.is_closed && segment.messages.len() > 0 && segment.messages.last().timestamp <= cutoff
}

/// A cut of a chain with the stale segments on its left and the others on
/// its right is where `stale` says.
pub proof fn lemma_stale(chain: Seq<SegmentModel>, cutoff: u64, cut: int)
    requires
        0 <= cut <= chain.len(),
        forall|i: int| 0 <= i < cut ==> is_stale(#[trigger] chain[i], cutoff),
        forall|i: int| cut <= i < chain.len() ==> !is_stale(#[trigger] chain[i], cutoff),
    ensures
        stale(chain, cutoff) == cut,
    decreases chain.len(),
{
    if chain.len() > cut {
        let front = chain.drop_last();
        assert(chain.last() == chain[chain.len() - 1]);
        assert forall|i: int| 0 <= i < cut implies is_stale(#[trigger] front[i], cutoff) by {
            assert(front[i] == chain[i]);
        }
        assert forall|i: int| cut <= i < front.len() implies !is_stale(
            #[trigger] front[i],
            cutoff,
        ) by {
            assert(front[i] == chain[i]);
        }
        lemma_stale(front, cutoff, cut);
    } else if chain.len() > 0 {
        assert(chain.last() == chain[cut - 1]);
    }
}

/// What is left of a chain after its first `d` segments were taken away is
/// a chain, and its log is what is left of the log after their messages
/// were taken away.
pub proof fn lemma_chain_skip(chain: Seq<SegmentModel>, d: int)
    requires
        chained(chain),
        0 <= d < chain.len(),
    ensures
        chained(chain.skip(d)),
        log_of(chain.skip(d)) == log_of(chain).skip(log_of(chain.take(d)).len() as int),
        log_of(chain).len() == log_of(chain.take(d)).len() + log_of(chain.skip(d)).len(),
        size_of(chain) == size_of(chain.take(d)) + size_of(chain.skip(d)),
{
    let rest = chain.skip(d);
    lemma_log_of_split(chain, d);
    assert(log_of(rest) =~= log_of(chain).skip(log_of(chain.take(d)).len() as int));
    assert forall|i: int| 0 <= i < rest.len() implies offsets_from(
        (#[trigger] rest[i]).messages,
        rest[i].start_offset as int,
    ) by {
        assert(rest[i] == chain[i + d]);
    }
    assert forall|i: int, j: int| 0 <= i && j == i + 1 && j < rest.len() implies (
    #[trigger] rest[i]).start_offset + rest[i].messages.len() == (
    #[trigger] rest[j]).start_offset by {
        assert(rest[i] == chain[i + d]);
        assert(rest[j] == chain[j + d]);
    }
    assert forall|i: int| 0 <= i < rest.len() - 1 implies (#[trigger] rest[i]).is_closed
        && rest[i].messages.len() > 0 by {
        assert(rest[i] == chain[i + d]);
    }
    assert(rest.last() == chain.last());
}

/// Along a linked chain whose segments but the last hold messages, first
/// offsets rise, and a later segment stands later in the log.
pub proof fn lemma_starts_rise(chain: Seq<SegmentModel>, i: int, j: int)
    requires
        chained(chain),
        0 <= i < j < chain.len(),
    ensures
        chain[i].start_offset + chain[i].messages.len() <= chain[j].start_offset,
    decreases j - i,
{
    if j == i + 1 {
        assert(chain[i].start_offset + chain[i].messages.len() == chain[j].start_offset);
    } else {
        lemma_starts_rise(chain, i, j - 1);
        assert(chain[j - 1].start_offset + chain[j - 1].messages.len() == chain[j].start_offset);
    }
}

/// A segment added behind a chain adds its messages behind the log and its
/// size to the sum.
pub proof fn lemma_log_of_push(chain: Seq<SegmentModel>, segment: SegmentModel)
    ensures
        log_of(chain.push(segment)) == log_of(chain) + segment.messages,
        size_of(chain.push(segment)) == size_of(chain) + log_bytes(segment.messages).len(),
{
    assert(chain.push(segment).drop_last() =~= chain);
}

/// The log and the size of a chain depend on the messages of its segments
/// alone.
pub proof fn lemma_log_of_messages(a: Seq<SegmentModel>, b: Seq<SegmentModel>)
    requires
        a.len() == b.len(),
        forall|i: int| 0 <= i < a.len() ==> (#[trigger] a[i]).messages == b[i].messages,
    ensures
        log_of(a) == log_of(b),
        size_of(a) == size_of(b),
    decreases a.len(),
{
    if a.len() > 0 {
        assert forall|i: int| 0 <= i < a.len() - 1 implies (#[trigger] a.drop_last()[i]).messages
            == b.drop_last()[i].messages by {
            assert(a[i].messages == b[i].messages);
        }
        lemma_log_of_messages(a.drop_last(), b.drop_last());
        assert(a[a.len() - 1].messages == b[a.len() - 1].messages);
    }
}

/// Segments that continue each other: each but the last holds messages
/// and ends where the next starts, and timestamps rise along their log.
pub open spec fn joined(chain: Seq<SegmentModel>) -> bool {
    &&& forall|i: int, j: int|
        #![trigger chain[i], chain[j]]
        0 <= i && j == i + 1 && j < chain.len() ==> continues(chain[i], chain[j])
    &&& timestamps_rise(log_of(chain))
}

/// A segment that holds messages, and the one that starts where it ends.
pub open spec fn continues(segment: SegmentModel, next: SegmentModel) -> bool {
    segment.messages.len() > 0 && segment.start_offset + segment.messages.len()
        == next.start_offset
}

/// The chain of a partition that holds the sealed segments `chain`: with
/// an empty segment at offset 0 where there is none; with the last segment
/// open where its log is below `threshold`; else with an empty, open
/// segment behind it.
pub open spec fn opened(chain: Seq<SegmentModel>, threshold: u32) -> Seq<SegmentModel> {
    if chain.len() == 0 {
        seq![SegmentModel { start_offset: 0, messages: Seq::empty(), is_closed: false }]
    } else if log_bytes(chain.last().messages).len() >= threshold {
        chain.push(
            SegmentModel {
                start_offset: (chain.last().start_offset + chain.last().messages.len()) as u64,
                messages: Seq::empty(),
                is_closed: false,
            },
        )
    } else {
        chain.update(chain.len() - 1, SegmentModel { is_closed: false, ..chain.last() })
    }
}

/// Sealed segments that continue each other make, once opened, the chain
/// of a partition with the same log and size.
pub proof fn lemma_opened(chain: Seq<SegmentModel>, threshold: u32)
    requires
        threshold > 0,
        joined(chain),
        forall|i: int|
            0 <= i < chain.len() ==> (#[trigger] chain[i]).is_closed && offsets_from(
                chain[i].messages,
                chain[i].start_offset as int,
            ) && chain[i].start_offset + chain[i].messages.len() <= u64::MAX,
    ensures
        chained(opened(chain, threshold)),
        log_of(opened(chain, threshold)) == log_of(chain),
        size_of(opened(chain, threshold)) == size_of(chain),
{
    let next = opened(chain, threshold);
    if chain.len() == 0 {
        assert(next.drop_last() =~= Seq::<SegmentModel>::empty());
        assert(log_of(next.drop_last()) =~= Seq::<MessageView>::empty());
        assert(next.last().messages =~= Seq::<MessageView>::empty());
        assert(log_of(next) =~= Seq::<MessageView>::empty());
        assert(log_of(chain) =~= Seq::<MessageView>::empty());
        assert(size_of(next.drop_last()) == 0);
        assert(log_bytes(Seq::<MessageView>::empty()).len() == 0);
    } else if log_bytes(chain.last().messages).len() >= threshold {
        lemma_log_of_push(chain, next.last());
        assert(log_of(next) =~= log_of(chain));
        assert(chain.last() == chain[chain.len() - 1]);
        assert forall|i: int| 0 <= i < next.len() implies offsets_from(
            (#[trigger] next[i]).messages,
            next[i].start_offset as int,
        ) by {
            if i < chain.len() {
                assert(next[i] == chain[i]);
            }
        }
        assert forall|i: int, j: int| 0 <= i && j == i + 1 && j < next.len() implies (
        #[trigger] next[i]).start_offset + next[i].messages.len() == (
        #[trigger] next[j]).start_offset by {
            assert(next[i] == chain[i]);
            if j < chain.len() {
                assert(next[j] == chain[j]);
                assert(continues(chain[i], chain[j]));
            }
        }
        assert forall|i: int| 0 <= i < next.len() - 1 implies (#[trigger] next[i]).is_closed
            && next[i].messages.len() > 0 by {
            assert(next[i] == chain[i]);
            if i + 1 < chain.len() {
                assert(continues(chain[i], chain[i + 1]));
            } else {
                assert(log_bytes(Seq::<MessageView>::empty()).len() == 0);
                assert(chain[i].messages.len() > 0);
            }
        }
    } else {
        assert forall|i: int| 0 <= i < chain.len() implies (#[trigger] next[i]).messages
            == chain[i].messages by {}
        lemma_log_of_messages(next, chain);
        assert forall|i: int| 0 <= i < next.len() implies offsets_from(
            (#[trigger] next[i]).messages,
            next[i].start_offset as int,
        ) by {
            assert(chain[i].is_closed);
        }
        assert forall|i: int, j: int| 0 <= i && j == i + 1 && j < next.len() implies (
        #[trigger] next[i]).start_offset + next[i].messages.len() == (
        #[trigger] next[j]).start_offset by {
            assert(next[i] == chain[i]);
            assert(next[j].start_offset == chain[j].start_offset);
            assert(continues(chain[i], chain[j]));
        }
        assert forall|i: int| 0 <= i < next.len() - 1 implies (#[trigger] next[i]).is_closed
            && next[i].messages.len() > 0 by {
            assert(next[i] == chain[i]);
            assert(continues(chain[i], chain[i + 1]));
        }
    }
}

/// The first `k` of segments that continue each other continue each other.
pub proof fn lemma_joined_prefix(chain: Seq<SegmentModel>, k: int)
    requires
        joined(chain),
        0 <= k <= chain.len(),
    ensures
        joined(chain.take(k)),
{
    let head = chain.take(k);
    assert forall|i: int, j: int|
        #![trigger head[i], head[j]]
        0 <= i && j == i + 1 && j < head.len() implies continues(head[i], head[j]) by {
        assert(head[i] == chain[i]);
        assert(head[j] == chain[j]);
        assert(continues(chain[i], chain[j]));
    }
    lemma_log_of_split(chain, k);
    let n = log_of(head).len() as int;
    assert(log_of(chain).len() == n + log_of(chain.skip(k)).len());
    lemma_rise_parts(log_of(chain), n);
    assert(log_of(chain).take(n) =~= log_of(head));
    assert(timestamps_rise(log_of(head)));
}

/// Segments that continue each other, and one more that continues the
/// last of them without a timestamp that falls, continue each other.
pub proof fn lemma_joined_push(chain: Seq<SegmentModel>, segment: SegmentModel)
    requires
        joined(chain),
        chain.len() == 0 || continues(chain.last(), segment),
        timestamps_rise(log_of(chain) + segment.messages),
    ensures
        joined(chain.push(segment)),
{
    let more = chain.push(segment);
    lemma_log_of_push(chain, segment);
    assert forall|i: int, j: int|
        #![trigger more[i], more[j]]
        0 <= i && j == i + 1 && j < more.len() implies continues(more[i], more[j]) by {
        if j < chain.len() {
            assert(more[i] == chain[i]);
            assert(more[j] == chain[j]);
            assert(continues(chain[i], chain[j]));
        } else {
            assert(more[i] == chain.last());
        }
    }
}

/// Where segments continue each other, the one at `k` continues the one
/// before it, and no timestamp falls from the log before it to its
/// messages.
pub proof fn lemma_joined_at(chain: Seq<SegmentModel>, k: int)
    requires
        0 <= k < chain.len(),
    ensures
        joined(chain) ==> joined(chain.take(k)) && (k == 0 || continues(
            chain.take(k).last(),
            chain[k],
        )) && timestamps_rise(log_of(chain.take(k)) + chain[k].messages),
{
    if joined(chain) {
        lemma_joined_prefix(chain, k);
        lemma_joined_prefix(chain, k + 1);
        assert(chain.take(k + 1) =~= chain.take(k).push(chain[k]));
        lemma_log_of_push(chain.take(k), chain[k]);
        if k > 0 {
            assert(chain.take(k).last() == chain[k - 1]);
            assert(continues(chain[k - 1], chain[k]));
        }
    }
}

} // verus!
