//! Finding a child of a container by its id or by its name.

use vstd::prelude::*;

verus! {

/// The index of the first of `keys` that equals `wanted`, or the length of
/// `keys` where none does.
pub open spec fn first_index<K>(keys: Seq<K>, wanted: K) -> int
    decreases keys.len(),
{
    if keys.len() == 0 {
        0
    } else {
        let at = first_index(keys.drop_last(), wanted);
        if at < keys.len() - 1 {
            at
        } else if keys.last() == wanted {
            keys.len() - 1
        } else {
            keys.len() as int
        }
    }
}

/// No two of `keys` are equal.
pub open spec fn distinct<K>(keys: Seq<K>) -> bool {
    forall|i: int, j: int| 0 <= i < j < keys.len() ==> keys[i] != keys[j]
}

/// An index before which no key is `wanted`, and at which one is unless it
/// is the length, is where `first_index` says.
pub proof fn lemma_first_index<K>(keys: Seq<K>, wanted: K, at: int)
    requires
        0 <= at <= keys.len(),
        forall|k: int| 0 <= k < at ==> keys[k] != wanted,
        at < keys.len() ==> keys[at] == wanted,
    ensures
        first_index(keys, wanted) == at,
    decreases keys.len(),
{
    if keys.len() > 0 {
        let front = keys.drop_last();
        if at < keys.len() {
            assert forall|k: int| 0 <= k < at implies front[k] != wanted by {
                assert(front[k] == keys[k]);
            }
            if at < front.len() {
                assert(front[at] == keys[at]);
            }
            lemma_first_index(front, wanted, at);
        } else {
            assert forall|k: int| 0 <= k < front.len() implies front[k] != wanted by {
                assert(front[k] == keys[k]);
            }
            lemma_first_index(front, wanted, front.len() as int);
            assert(keys.last() == keys[keys.len() - 1]);
        }
    }
}

/// `first_index` is within the keys or their length; where it is within,
/// the key there is `wanted`; where it is the length, no key is `wanted`.
pub proof fn lemma_first_index_found<K>(keys: Seq<K>, wanted: K)
    ensures
        0 <= first_index(keys, wanted) <= keys.len(),
        first_index(keys, wanted) < keys.len() ==> keys[first_index(keys, wanted)] == wanted,
        forall|k: int| 0 <= k < first_index(keys, wanted) ==> keys[k] != wanted,
    decreases keys.len(),
{
    if keys.len() > 0 {
        let front = keys.drop_last();
        lemma_first_index_found(front, wanted);
        assert forall|k: int| 0 <= k < first_index(keys, wanted) implies keys[k] != wanted by {
            if k < front.len() {
                assert(front[k] == keys[k]);
            }
        }
        if first_index(front, wanted) < front.len() {
            assert(front[first_index(front, wanted)] == keys[first_index(front, wanted)]);
        }
    }
}

} // verus!
