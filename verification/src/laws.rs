use vstd::prelude::*;

use crate::array::LockFreeArray;
use crate::key::SkipKey;
use crate::skiplist::Skiplist;
use crate::sl_lock_free::SkipListNoLock;
use crate::SkipList;

verus! {

/// After `insert(k, v)` on a [`SkipList`], `get(k)` finds `v`, and every other key is found
/// with the value it had before, or not at all if it was absent.
pub proof fn law_skiplist_insert_get<K: SkipKey, V>(
    before: SkipList<K, V>,
    after: SkipList<K, V>,
    k: K,
    v: V,
    other: K,
)
    requires
        before.wf(),
        after.wf(),
        after@ == before@.insert(k, v),
    ensures
        after@.contains_key(k),
        after@[k] == v,
        other != k ==> after@.contains_key(other) == before@.contains_key(other),
        other != k && before@.contains_key(other) ==> after@[other] == before@[other],
{
}

/// After `insert(k, v)` on a [`Skiplist`], `get(k)` finds `v`, and every other key is found
/// with the value it had before, or not at all if it was absent.
pub proof fn law_skiplist_epoch_insert_get<K: SkipKey, V, const N: usize>(
    before: Skiplist<K, V, N>,
    after: Skiplist<K, V, N>,
    k: K,
    v: V,
    other: K,
)
    requires
        before.wf(),
        after.wf(),
        after@ == before@.insert(k, v),
    ensures
        after@.contains_key(k),
        after@[k] == v,
        other != k ==> after@.contains_key(other) == before@.contains_key(other),
        other != k && before@.contains_key(other) ==> after@[other] == before@[other],
{
}

/// After `insert(k, v)` on a [`SkipListNoLock`], `get(k)` finds `v`, and every other key is
/// found with the value it had before, or not at all if it was absent.
pub proof fn law_nolock_insert_get<K: SkipKey, V, const N: usize>(
    before: SkipListNoLock<K, V, N>,
    after: SkipListNoLock<K, V, N>,
    k: K,
    v: V,
    other: K,
)
    requires
        before.wf(),
        after.wf(),
        after@ == before@.insert(k, v),
    ensures
        after@.contains_key(k),
        after@[k] == v,
        other != k ==> after@.contains_key(other) == before@.contains_key(other),
        other != k && before@.contains_key(other) ==> after@[other] == before@[other],
{
}

/// What `try_insert_at(i, v)` stores in a slot is what `take(i)` then hands back.
pub proof fn law_array_insert_at_then_take<T, const N: usize>(
    a0: LockFreeArray<T, N>,
    a1: LockFreeArray<T, N>,
    i: int,
    v: T,
    taken: Option<T>,
)
    requires
        a0.wf(),
        a1.wf(),
        0 <= i < N,
        a1@ == a0@.update(i, Some(v)),
        a1@[i] is Some ==> taken == a1@[i],
    ensures
        taken == Some(v),
{
    a0.lemma_len();
}

/// The slot that `take(i)` empties is the one that the next `try_insert(v)` fills and hands out.
pub proof fn law_array_take_then_try_insert<T, const N: usize>(
    a0: LockFreeArray<T, N>,
    a1: LockFreeArray<T, N>,
    a2: LockFreeArray<T, N>,
    i: int,
    v: T,
    r: Result<usize, T>,
)
    requires
        a0.wf(),
        a1.wf(),
        0 <= i < N,
        a0@[i] is Some,
        a1.free_head() == i,
        a1.free_head() != N ==> r == Ok::<usize, T>(a1.free_head() as usize) && a2@ == a1@.update(
            a1.free_head(),
            Some(v),
        ),
    ensures
        r == Ok::<usize, T>(i as usize),
        a2@[i] == Some(v),
{
    a1.lemma_len();
}

} // verus!
