//! Sums of the counters of a container's children.
//!
//! Every level above the segments carries the bytes and messages of all
//! that it contains. The counters of a container are the sums of the
//! counters of its children.

use vstd::prelude::*;
use crate::segment::Counters;

verus! {

/// The bytes that `items` count together.
pub open spec fn total_bytes(items: Seq<Counters>) -> nat
    decreases items.len(),
{
    if items.len() == 0 {
        0
    } else {
        total_bytes(items.drop_last()) + items.last().size_bytes as nat
    }
}

/// The messages that `items` count together.
pub open spec fn total_messages(items: Seq<Counters>) -> nat
    decreases items.len(),
{
    if items.len() == 0 {
        0
    } else {
        total_messages(items.drop_last()) + items.last().messages_count as nat
    }
}

/// `counters` are the sums of `items`, and there are at least 45 bytes to
/// a message.
pub open spec fn sums_up(counters: Counters, items: Seq<Counters>) -> bool {
    &&& counters.size_bytes == total_bytes(items)
    &&& counters.messages_count == total_messages(items)
    &&& 45 * counters.messages_count <= counters.size_bytes
}

/// One more item adds its counts to the sums.
pub proof fn lemma_total_push(items: Seq<Counters>, item: Counters)
    ensures
        total_bytes(items.push(item)) == total_bytes(items) + item.size_bytes,
        total_messages(items.push(item)) == total_messages(items) + item.messages_count,
{
    assert(items.push(item).drop_last() =~= items);
}

/// An item that changes moves the sums by as much as it changed, and no
/// item counts more than the sums.
pub proof fn lemma_total_update(items: Seq<Counters>, at: int, item: Counters)
    requires
        0 <= at < items.len(),
    ensures
        total_bytes(items.update(at, item)) == total_bytes(items) - items[at].size_bytes
            + item.size_bytes,
        total_messages(items.update(at, item)) == total_messages(items) - items[at].messages_count
            + item.messages_count,
        items[at].size_bytes <= total_bytes(items),
        items[at].messages_count <= total_messages(items),
    decreases items.len(),
{
    let front = items.drop_last();
    if at == items.len() - 1 {
        assert(items.update(at, item).drop_last() =~= front);
    } else {
        lemma_total_update(front, at, item);
        assert(items.update(at, item).drop_last() =~= front.update(at, item));
    }
}

/// An item that leaves takes its counts off the sums.
pub proof fn lemma_total_remove(items: Seq<Counters>, at: int)
    requires
        0 <= at < items.len(),
    ensures
        total_bytes(items.remove(at)) == total_bytes(items) - items[at].size_bytes,
        total_messages(items.remove(at)) == total_messages(items) - items[at].messages_count,
    decreases items.len(),
{
    let front = items.drop_last();
    if at == items.len() - 1 {
        assert(items.remove(at) =~= front);
    } else {
        lemma_total_remove(front, at);
        assert(items.remove(at).drop_last() =~= front.remove(at));
        assert(items.remove(at).last() == items.last());
    }
}

} // verus!
