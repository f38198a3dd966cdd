//! The Robin Hood routines that search and maintain one index array.

use crate::bucket::{keys_of, Bucket, Side};
use crate::hashing::{hash_to_index, ideal_index, keys_equal, obeys_hash_model};
use crate::index::{
    covered, dist, index_inv, insertion_point, lemma_delete_keeps_inv, lemma_has_empty,
    lemma_path, passes, prev_slot, resident_dist, run_to_empty, run_to_settled, shift_backward,
    shift_forward, slot_at, EMPTY_SLOT,
};
use std::hash::{BuildHasher, Hash};
use vstd::prelude::*;

verus! {

/// The homes of the buckets whose keys on one side are `keys`, in an index
/// of `capacity` slots hashed with `hasher`.
pub open spec fn homes_of<E, G>(hasher: G, keys: Seq<E>, capacity: usize) -> Seq<int> {
    Seq::new(keys.len(), |i: int| ideal_index(hasher, keys[i], capacity))
}

/// No bucket but `missing` has the key `element`.
pub open spec fn absent<E>(keys: Seq<E>, missing: int, element: E) -> bool {
    forall|i: int| 0 <= i < keys.len() && i != missing ==> #[trigger] keys[i] != element
}

/// A search that stops at an empty slot, or at a bucket closer to its home,
/// without having met the key, shows that no bucket has the key.
pub proof fn lemma_stop_means_absent<E, G>(
    idx: Seq<usize>,
    hasher: G,
    keys: Seq<E>,
    missing: int,
    element: E,
    k: int,
)
    requires
        idx.len() <= usize::MAX,
        index_inv(idx, homes_of(hasher, keys, idx.len() as usize), missing),
        0 <= k < idx.len(),
        forall|u: int|
            0 <= u < k ==> #[trigger] passes(
                idx,
                homes_of(hasher, keys, idx.len() as usize),
                ideal_index(hasher, element, idx.len() as usize),
                u,
            ),
        forall|u: int|
            0 <= u < k ==> keys[idx[#[trigger] slot_at(
                ideal_index(hasher, element, idx.len() as usize),
                u,
                idx.len() as int,
            )] as int] != element,
        ({
            let s = slot_at(ideal_index(hasher, element, idx.len() as usize), k, idx.len() as int);
            idx[s] == EMPTY_SLOT || (keys[idx[s] as int] != element && resident_dist(
                idx,
                homes_of(hasher, keys, idx.len() as usize),
                s,
            ) < k)
        }),
    ensures
        absent(keys, missing, element),
{
    let cap = idx.len() as int;
    let homes = homes_of(hasher, keys, idx.len() as usize);
    let ideal = ideal_index(hasher, element, idx.len() as usize);
    assert forall|i: int| 0 <= i < keys.len() && i != missing implies #[trigger] keys[i]
        != element by {
        if keys[i] == element {
            assert(covered(idx, i));
            let q = choose|q: int| 0 <= q < cap && #[trigger] idx[q] == i;
            assert(homes[i] == ideal);
            let d = resident_dist(idx, homes, q);
            if d < k {
                assert(slot_at(ideal, d, cap) == q);
            } else {
                lemma_path(idx, homes, missing, q, k);
            }
        }
    }
}

/// Searches the index for the bucket whose key on the side `S` is `element`.
///
/// Returns `Ok` with the slot that refers to that bucket, or, where no bucket
/// that the index refers to has the key, `Err` with the slot at which the
/// key would go in. The index may be one from which a bucket is missing.
pub fn probe_index<T, U, E: Hash + PartialEq, S: Side<T, U, E>, G: BuildHasher>(
    element: &E,
    hash_index: &Vec<usize>,
    hasher: &G,
    buckets: &[Bucket<T, U>],
    capacity: usize,
) -> (r: Result<usize, usize>)
    requires
        obeys_hash_model::<E, G>(),
        capacity == hash_index.len(),
        exists|missing: int|
            index_inv(
                hash_index@,
                homes_of(*hasher, keys_of::<T, U, E, S>(buckets@), capacity),
                missing,
            ),
    ensures
        match r {
            Ok(j) => {
                &&& j < capacity
                &&& hash_index[j as int] != EMPTY_SLOT
                &&& S::key_of(buckets[hash_index[j as int] as int]) == *element
            },
            Err(p) => {
                &&& forall|missing: int|
                    #![trigger absent(keys_of::<T, U, E, S>(buckets@), missing, *element)]
                    index_inv(
                        hash_index@,
                        homes_of(*hasher, keys_of::<T, U, E, S>(buckets@), capacity),
                        missing,
                    ) ==> absent(keys_of::<T, U, E, S>(buckets@), missing, *element)
                &&& insertion_point(
                    hash_index@,
                    homes_of(*hasher, keys_of::<T, U, E, S>(buckets@), capacity),
                    ideal_index(*hasher, *element, capacity),
                    p as int,
                )
            },
        },
{
    let ghost keys = keys_of::<T, U, E, S>(buckets@);
    let ghost homes = homes_of(*hasher, keys, capacity);
    let ghost missing = choose|missing: int| index_inv(hash_index@, homes, missing);
    let start = hash_to_index(hasher, element, capacity);
    let ghost ideal = start as int;
    let mut index = start;
    let mut traveled: usize = 0;
    proof {
        lemma_has_empty(hash_index@, homes, missing);
    }
    let ghost e = choose|e: int|
        0 <= e < hash_index.len() && #[trigger] hash_index[e] == EMPTY_SLOT;
    while hash_index[index] < EMPTY_SLOT
        invariant
            obeys_hash_model::<E, G>(),
            capacity == hash_index.len(),
            keys == keys_of::<T, U, E, S>(buckets@),
            homes == homes_of(*hasher, keys, capacity),
            index_inv(hash_index@, homes, missing),
            ideal == ideal_index(*hasher, *element, capacity),
            0 <= e < capacity,
            hash_index[e] == EMPTY_SLOT,
            index < capacity,
            traveled < capacity,
            index == slot_at(ideal, traveled as int, capacity as int),
            forall|u: int| 0 <= u < traveled ==> #[trigger] passes(hash_index@, homes, ideal, u),
            forall|u: int|
                0 <= u < traveled ==> keys[hash_index[#[trigger] slot_at(
                    ideal,
                    u,
                    capacity as int,
                )] as int] != *element,
        decreases capacity - traveled,
    {
        let bucket = hash_index[index];
        if keys_equal(S::key(&buckets[bucket]), element) {
            return Ok(index);
        }
        let home = hash_to_index(hasher, S::key(&buckets[bucket]), capacity);
        let target_probe_dist = if index >= home {
            index - home
        } else {
            index + (capacity - home)
        };
        assert(target_probe_dist == resident_dist(hash_index@, homes, index as int));
        if traveled > target_probe_dist {
            proof {
                assert forall|m: int| index_inv(hash_index@, homes, m) implies absent(
                    keys,
                    m,
                    *element,
                ) by {
                    lemma_stop_means_absent(
                        hash_index@,
                        *hasher,
                        keys,
                        m,
                        *element,
                        traveled as int,
                    );
                }
            }
            return Err(index);
        }
        proof {
            assert(passes(hash_index@, homes, ideal, traveled as int));
            let ke = dist(e, ideal, capacity as int);
            assert(slot_at(ideal, ke, capacity as int) == e);
            if ke <= traveled {
                assert(passes(hash_index@, homes, ideal, ke));
            }
        }
        index = if index + 1 == capacity {
            0
        } else {
            index + 1
        };
        traveled += 1;
    }
    proof {
        assert forall|m: int| index_inv(hash_index@, homes, m) implies absent(
            keys,
            m,
            *element,
        ) by {
            lemma_stop_means_absent(
                hash_index@,
                *hasher,
                keys,
                m,
                *element,
                traveled as int,
            );
        }
    }
    Err(index)
}

/// Puts `bucket_index` into the index at `mapping_index`. The buckets that
/// sit from there up to the next empty slot each move one slot forward.
pub fn insert_mapping(meta_index: &mut Vec<usize>, mapping_index: usize, bucket_index: usize)
    requires
        mapping_index < old(meta_index).len(),
        exists|e: int|
            0 <= e < old(meta_index).len() && #[trigger] old(meta_index)[e] == EMPTY_SLOT,
    ensures
        final(meta_index).len() == old(meta_index).len(),
        exists|m: int|
            #[trigger] run_to_empty(old(meta_index)@, mapping_index as int, m)
                && final(meta_index)@ == shift_forward(
                old(meta_index)@,
                mapping_index as int,
                m,
                bucket_index,
            ),
{
    let ghost before = meta_index@;
    let ghost p = mapping_index as int;
    let ghost e = choose|e: int| 0 <= e < before.len() && #[trigger] before[e] == EMPTY_SLOT;
    let capacity = meta_index.len();
    let ghost cap = capacity as int;
    let mut position = mapping_index;
    let mut current_content = bucket_index;
    let ghost mut t: int = 0;
    while meta_index[position] < EMPTY_SLOT
        invariant
            meta_index.len() == capacity,
            before.len() == capacity,
            cap == capacity,
            0 <= p < cap,
            0 <= e < cap,
            before[e] == EMPTY_SLOT,
            position < capacity,
            0 <= t < cap,
            position == slot_at(p, t, cap),
            forall|u: int| 0 <= u < t ==> before[#[trigger] slot_at(p, u, cap)] != EMPTY_SLOT,
            current_content == (if t == 0 {
                bucket_index
            } else {
                before[prev_slot(position as int, cap)]
            }),
            meta_index@ =~= Seq::new(
                before.len(),
                |j: int|
                    if dist(j, p, cap) < t {
                        if j == p {
                            bucket_index
                        } else {
                            before[prev_slot(j, cap)]
                        }
                    } else {
                        before[j]
                    },
            ),
        decreases cap - t,
    {
        let resident = meta_index[position];
        meta_index.set(position, current_content);
        current_content = resident;
        proof {
            let ke = dist(e, p, cap);
            assert(slot_at(p, ke, cap) == e);
            assert(before[slot_at(p, t, cap)] != EMPTY_SLOT);
            t = t + 1;
        }
        position = if position + 1 == capacity {
            0
        } else {
            position + 1
        };
    }
    meta_index.set(position, current_content);
    proof {
        assert(run_to_empty(before, p, t));
        assert(meta_index@ =~= shift_forward(before, p, t, bucket_index));
    }
}

/// Whether slot `slot` holds a bucket that is away from its home.
pub fn is_displaced<T, U, E: Hash + PartialEq, S: Side<T, U, E>, G: BuildHasher>(
    meta_index: &Vec<usize>,
    hasher: &G,
    buckets: &[Bucket<T, U>],
    slot: usize,
) -> (r: bool)
    requires
        obeys_hash_model::<E, G>(),
        slot < meta_index.len(),
        meta_index[slot as int] != EMPTY_SLOT ==> meta_index[slot as int] < buckets.len(),
    ensures
        r == (meta_index[slot as int] != EMPTY_SLOT && resident_dist(
            meta_index@,
            homes_of(*hasher, keys_of::<T, U, E, S>(buckets@), meta_index.len()),
            slot as int,
        ) > 0),
{
    let neighbor = meta_index[slot];
    neighbor != EMPTY_SLOT && hash_to_index(hasher, S::key(&buckets[neighbor]), meta_index.len())
        != slot
}

/// Empties slot `mapping_index` of the index. The displaced buckets that
/// follow it, up to the first empty slot or the first bucket at its home,
/// each move one slot backward.
pub fn delete_mapping<T, U, E: Hash + PartialEq, S: Side<T, U, E>, G: BuildHasher>(
    meta_index: &mut Vec<usize>,
    hasher: &G,
    buckets: &[Bucket<T, U>],
    mapping_index: usize,
)
    requires
        obeys_hash_model::<E, G>(),
        mapping_index < old(meta_index).len(),
        old(meta_index)[mapping_index as int] != EMPTY_SLOT,
        index_inv(
            old(meta_index)@,
            homes_of(*hasher, keys_of::<T, U, E, S>(buckets@), old(meta_index).len()),
            -1,
        ),
    ensures
        final(meta_index).len() == old(meta_index).len(),
        exists|t: int|
            #[trigger] run_to_settled(
                old(meta_index)@,
                homes_of(*hasher, keys_of::<T, U, E, S>(buckets@), old(meta_index).len()),
                mapping_index as int,
                t,
            ) && final(meta_index)@ == shift_backward(old(meta_index)@, mapping_index as int, t),
        index_inv(
            final(meta_index)@,
            homes_of(*hasher, keys_of::<T, U, E, S>(buckets@), old(meta_index).len()),
            old(meta_index)[mapping_index as int] as int,
        ),
{
    let ghost before = meta_index@;
    let ghost j0 = mapping_index as int;
    let capacity = meta_index.len();
    let ghost cap = capacity as int;
    let ghost homes = homes_of(*hasher, keys_of::<T, U, E, S>(buckets@), capacity);
    proof {
        lemma_has_empty(before, homes, -1);
    }
    let ghost e = choose|e: int| 0 <= e < before.len() && #[trigger] before[e] == EMPTY_SLOT;
    meta_index.set(mapping_index, EMPTY_SLOT);
    let mut vacated = mapping_index;
    let mut current = if mapping_index + 1 == capacity {
        0
    } else {
        mapping_index + 1
    };
    let ghost mut t: int = 0;
    while is_displaced::<T, U, E, S, G>(meta_index, hasher, buckets, current)
        invariant
            obeys_hash_model::<E, G>(),
            meta_index.len() == capacity,
            before.len() == capacity,
            cap == capacity,
            homes == homes_of(*hasher, keys_of::<T, U, E, S>(buckets@), capacity),
            index_inv(before, homes, -1),
            0 <= j0 < cap,
            before[j0] != EMPTY_SLOT,
            0 <= e < cap,
            before[e] == EMPTY_SLOT,
            vacated < capacity,
            current < capacity,
            0 <= t < cap - 1 || (t == 0 && cap == 1),
            vacated == slot_at(j0, t, cap),
            current == slot_at(j0, t + 1, cap),
            forall|u: int|
                1 <= u <= t ==> {
                    let q = #[trigger] slot_at(j0, u, cap);
                    before[q] != EMPTY_SLOT && resident_dist(before, homes, q) > 0
                },
            meta_index@ =~= shift_backward(before, j0, t),
            forall|j: int|
                0 <= j < cap ==> #[trigger] meta_index[j] == EMPTY_SLOT || meta_index[j]
                    < buckets.len(),
        decreases cap - t,
    {
        let neighbor = meta_index[current];
        meta_index.set(vacated, neighbor);
        meta_index.set(current, EMPTY_SLOT);
        proof {
            let ke = dist(e, j0, cap);
            assert(slot_at(j0, ke, cap) == e);
            assert(before[current as int] == neighbor);
            t = t + 1;
            assert(meta_index@ =~= shift_backward(before, j0, t));
        }
        vacated = current;
        current = if current + 1 == capacity {
            0
        } else {
            current + 1
        };
    }
    proof {
        assert(run_to_settled(before, homes, j0, t));
        lemma_delete_keeps_inv(before, homes, j0, t);
    }
}

/// Empties every slot of the index.
pub fn fill_empty(meta_index: &mut Vec<usize>)
    ensures
        final(meta_index).len() == old(meta_index).len(),
        forall|j: int|
            0 <= j < final(meta_index).len() ==> #[trigger] final(meta_index)[j] == EMPTY_SLOT,
{
    let capacity = meta_index.len();
    let mut slot: usize = 0;
    while slot < capacity
        invariant
            meta_index.len() == capacity,
            slot <= capacity,
            forall|j: int| 0 <= j < slot ==> #[trigger] meta_index[j] == EMPTY_SLOT,
        decreases capacity - slot,
    {
        meta_index.set(slot, EMPTY_SLOT);
        slot += 1;
    }
}

} // verus!
