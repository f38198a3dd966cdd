//! The bijective map itself.

use crate::bucket::{keys_of, Bucket, LeftSide, RightSide};
use crate::hashing::{hash_to_index, ideal_index, obeys_hash_model, random_state};
use crate::index::{
    index_inv, insertion_point, lemma_drop_last_keeps_inv, lemma_empty_index_inv,
    lemma_has_empty, lemma_insert_keeps_inv, lemma_insert_new_keeps_inv,
    lemma_insertion_point_stable, lemma_occupied_count, lemma_rehome_missing,
    lemma_repoint_keeps_inv, lemma_with_mapping, lemma_without_mapping, occupied_slots, rebuilt,
    run_to_empty, run_to_settled, shift_backward, shift_forward, slot_of, with_mapping,
    with_moved_mapping, without_bucket, without_mapping, EMPTY_SLOT,
};
use crate::load::{
    apply_load_factor, checked_load_factor, lemma_loaded_capacity_fits, loaded_capacity,
    under_max_load, DEFAULT_CAPACITY, GROWTH_FACTOR, MAX_LOAD_TENTHS,
};
use crate::pairing::{
    lemma_pairing_at, lemma_pairing_inverse, lemma_pairing_key, lemma_pairing_len,
    lemma_pairing_push, lemma_pairing_set_key, lemma_pairing_set_val, lemma_pairing_swap_remove,
    pairing, swap_removed,
};
use crate::probe::{absent, delete_mapping, fill_empty, homes_of, insert_mapping, probe_index};
use std::collections::hash_map::RandomState;
use std::hash::{BuildHasher, Hash};
use vstd::prelude::*;
use vstd::slice::slice_subrange;

verus! {

/// A bi-directional map.
///
/// The pairs are kept in `data`, the bucket store, addressed by slot number.
/// `left_index` and `right_index` find a slot from a left or a right value.
#[derive(Clone, Debug, PartialEq, Eq)]
pub struct BiMap<T, U, H = RandomState, RH = RandomState> {
    data: Vec<Bucket<T, U>>,
    left_index: Vec<usize>,
    right_index: Vec<usize>,
    hasher: H,
    reverse_hasher: RH,
}

/// The map `bound` with the pair `(k, v)` bound in it: what `k` was bound to
/// is unbound, and so is what was bound to `v`, as `back` tells it.
pub open spec fn rebound<A, B>(bound: Map<A, B>, back: Map<B, A>, k: A, v: B) -> Map<A, B> {
    let without_key = bound.remove(k);
    let without_both = if back.contains_key(v) {
        without_key.remove(back[v])
    } else {
        without_key
    };
    without_both.insert(k, v)
}

/// The store after the pair `(left, right)` was inserted.
///
/// A pair of two new values goes to the end. Where one value is in the store
/// its bucket is overwritten in place. Where both are, in different buckets,
/// the bucket of `right` is removed by moving the last bucket into its slot,
/// and the bucket of `left` is then overwritten where it stands.
pub open spec fn store_after_insert<T, U>(buckets: Seq<Bucket<T, U>>, left: T, right: U) -> Seq<
    Bucket<T, U>,
> {
    let lefts = keys_of::<T, U, T, LeftSide>(buckets);
    let rights = keys_of::<T, U, U, RightSide>(buckets);
    let bucket = Bucket { left, right };
    if lefts.contains(left) {
        let left_bucket = lefts.index_of(left);
        if rights.contains(right) {
            let right_bucket = rights.index_of(right);
            if left_bucket == right_bucket {
                buckets
            } else {
                let moved = if left_bucket == buckets.len() - 1 {
                    right_bucket
                } else {
                    left_bucket
                };
                swap_removed(buckets, right_bucket).update(moved, bucket)
            }
        } else {
            buckets.update(left_bucket, bucket)
        }
    } else if rights.contains(right) {
        buckets.update(rights.index_of(right), bucket)
    } else {
        buckets.push(bucket)
    }
}

/// An index of `capacity` empty slots.
fn empty_index(capacity: usize) -> (index: Vec<usize>)
    ensures
        index.len() == capacity,
        forall|j: int| 0 <= j < capacity ==> #[trigger] index[j] == EMPTY_SLOT,
{
    vec![EMPTY_SLOT; capacity]
}

impl<T: Hash + Eq, U: Hash + Eq> BiMap<T, U> {
    /// Create a new empty BiMap with the default capacity.
    pub fn new() -> (map: Self)
        ensures
            Self::hash_model() ==> map.wf(),
            map@ == Map::<T, U>::empty(),
            map.inverse() == Map::<U, T>::empty(),
            map.buckets() == Seq::<Bucket<T, U>>::empty(),
            map.spec_capacity() == loaded_capacity(DEFAULT_CAPACITY as int),
            map.indices_empty(),
    {
        Self::with_capacity(DEFAULT_CAPACITY)
    }

    /// Create a new empty BiMap with room for `capacity` pairs.
    pub fn with_capacity(capacity: usize) -> (map: Self)
        requires
            loaded_capacity(capacity as int) <= usize::MAX,
        ensures
            Self::hash_model() ==> map.wf(),
            map@ == Map::<T, U>::empty(),
            map.inverse() == Map::<U, T>::empty(),
            map.buckets() == Seq::<Bucket<T, U>>::empty(),
            map.spec_capacity() == loaded_capacity(capacity as int),
            map.indices_empty(),
            map.spec_can_fit(capacity),
    {
        proof {
            lemma_loaded_capacity_fits(capacity as int);
        }
        let capacity_with_load = apply_load_factor(capacity);
        let map = Self::with_hashers(capacity_with_load, random_state(), random_state());
        assert(map.buckets().len() == 0);
        map
    }
}

impl<T: Hash + Eq, U: Hash + Eq, H: BuildHasher, RH: BuildHasher> BiMap<T, U, H, RH> {
    /// Whether the key types and the hash builders behave as the map needs:
    /// hashing is deterministic, and `==` holds of two values exactly when
    /// they are the same.
    pub open spec fn hash_model() -> bool {
        obeys_hash_model::<T, H>() && obeys_hash_model::<U, RH>()
    }

    /// The buckets of the store, by slot number.
    pub closed spec fn buckets(&self) -> Seq<Bucket<T, U>> {
        self.data@
    }

    /// The left values, by slot number.
    pub open spec fn left_values_seq(&self) -> Seq<T> {
        keys_of::<T, U, T, LeftSide>(self.buckets())
    }

    /// The right values, by slot number.
    pub open spec fn right_values_seq(&self) -> Seq<U> {
        keys_of::<T, U, U, RightSide>(self.buckets())
    }

    /// The pairs of the map, by slot number.
    pub open spec fn entries(&self) -> Seq<(T, U)> {
        Seq::new(self.buckets().len(), |i: int| (self.buckets()[i].left, self.buckets()[i].right))
    }

    /// The map from each left value to the right value it is bound to.
    pub open spec fn view(&self) -> Map<T, U> {
        pairing(self.left_values_seq(), self.right_values_seq())
    }

    /// The map from each right value to the left value it is bound to.
    pub open spec fn inverse(&self) -> Map<U, T> {
        pairing(self.right_values_seq(), self.left_values_seq())
    }

    /// The number of slots of each index.
    pub closed spec fn spec_capacity(&self) -> int {
        self.left_index.len() as int
    }

    /// The slots of the left index.
    pub closed spec fn left_slots(&self) -> Seq<usize> {
        self.left_index@
    }

    /// The slots of the right index.
    pub closed spec fn right_slots(&self) -> Seq<usize> {
        self.right_index@
    }

    /// The hash builder for left values.
    pub closed spec fn spec_hasher_left(&self) -> H {
        self.hasher
    }

    /// The hash builder for right values.
    pub closed spec fn spec_hasher_right(&self) -> RH {
        self.reverse_hasher
    }

    /// No slot of either index refers to a bucket.
    pub open spec fn indices_empty(&self) -> bool {
        &&& forall|j: int|
            0 <= j < self.left_slots().len() ==> #[trigger] self.left_slots()[j] == EMPTY_SLOT
        &&& forall|j: int|
            0 <= j < self.right_slots().len() ==> #[trigger] self.right_slots()[j] == EMPTY_SLOT
    }

    /// Whether `num` more pairs stay under the maximum load.
    pub open spec fn spec_can_fit(&self, num: usize) -> bool {
        under_max_load(self.buckets().len() + num, self.spec_capacity())
    }

    /// The homes of the buckets in the left index.
    pub open spec fn left_homes(&self) -> Seq<int> {
        homes_of(self.spec_hasher_left(), self.left_values_seq(), self.spec_capacity() as usize)
    }

    /// The homes of the buckets in the right index.
    pub open spec fn right_homes(&self) -> Seq<int> {
        homes_of(self.spec_hasher_right(), self.right_values_seq(), self.spec_capacity() as usize)
    }

    /// The left index as it is built anew with `capacity` slots: the
    /// buckets go in one after the other, in slot order.
    pub open spec fn left_slots_rebuilt(&self, capacity: usize) -> Seq<usize> {
        rebuilt(
            homes_of(self.spec_hasher_left(), self.left_values_seq(), capacity),
            capacity as nat,
            self.buckets().len() as int,
        )
    }

    /// The right index as it is built anew with `capacity` slots: the
    /// buckets go in one after the other, in slot order.
    pub open spec fn right_slots_rebuilt(&self, capacity: usize) -> Seq<usize> {
        rebuilt(
            homes_of(self.spec_hasher_right(), self.right_values_seq(), capacity),
            capacity as nat,
            self.buckets().len() as int,
        )
    }

    /// The number of slots of each index once there is room for one more
    /// pair: as many as now, or the indices have grown.
    pub open spec fn capacity_with_room(&self) -> usize {
        if self.spec_can_fit(1) {
            self.spec_capacity() as usize
        } else {
            (self.spec_capacity() * GROWTH_FACTOR) as usize
        }
    }

    /// The left index once there is room for one more pair.
    pub open spec fn left_slots_with_room(&self) -> Seq<usize> {
        if self.spec_can_fit(1) {
            self.left_slots()
        } else {
            self.left_slots_rebuilt(self.capacity_with_room())
        }
    }

    /// The right index once there is room for one more pair.
    pub open spec fn right_slots_with_room(&self) -> Seq<usize> {
        if self.spec_can_fit(1) {
            self.right_slots()
        } else {
            self.right_slots_rebuilt(self.capacity_with_room())
        }
    }

    /// The left index after the pair `(left, right)` was inserted.
    ///
    /// The mapping of a new left value goes in: under a new slot number
    /// where `right` is new too, else under the number of the bucket of
    /// `right`, whose old mapping leaves. Where both values are in the map,
    /// in different buckets, the bucket of `right` leaves the index.
    pub open spec fn left_slots_after_insert(&self, left: T, right: U) -> Seq<usize> {
        let capacity = self.capacity_with_room();
        let slots = self.left_slots_with_room();
        let lefts = self.left_values_seq();
        let rights = self.right_values_seq();
        let homes = homes_of(self.spec_hasher_left(), lefts, capacity);
        let home = ideal_index(self.spec_hasher_left(), left, capacity);
        if lefts.contains(left) {
            if rights.contains(right) && rights.index_of(right) != lefts.index_of(left) {
                without_bucket(slots, homes, rights.index_of(right))
            } else {
                slots
            }
        } else if rights.contains(right) {
            with_moved_mapping(slots, homes, rights.index_of(right), home)
        } else {
            with_mapping(slots, homes, home, lefts.len() as usize)
        }
    }

    /// The right index after the pair `(left, right)` was inserted.
    ///
    /// The mapping of a new right value goes in: under a new slot number
    /// where `left` is new too, else under the number of the bucket of
    /// `left`, whose old mapping leaves. Where both values are in the map,
    /// in different buckets, the bucket of `right` leaves the index first.
    pub open spec fn right_slots_after_insert(&self, left: T, right: U) -> Seq<usize> {
        let capacity = self.capacity_with_room();
        let slots = self.right_slots_with_room();
        let lefts = self.left_values_seq();
        let rights = self.right_values_seq();
        let homes = homes_of(self.spec_hasher_right(), rights, capacity);
        let home = ideal_index(self.spec_hasher_right(), right, capacity);
        if lefts.contains(left) {
            let left_bucket = lefts.index_of(left);
            if rights.contains(right) {
                let right_bucket = rights.index_of(right);
                if left_bucket == right_bucket {
                    slots
                } else {
                    let moved = if left_bucket == lefts.len() - 1 {
                        right_bucket
                    } else {
                        left_bucket
                    };
                    with_moved_mapping(
                        without_bucket(slots, homes, right_bucket),
                        swap_removed(homes, right_bucket),
                        moved,
                        home,
                    )
                }
            } else {
                with_moved_mapping(slots, homes, left_bucket, home)
            }
        } else if rights.contains(right) {
            slots
        } else {
            with_mapping(slots, homes, home, lefts.len() as usize)
        }
    }

    /// The invariant of the map: no left value and no right value occurs
    /// twice, both indices are consistent with the buckets, and the buckets
    /// stay under the maximum load.
    pub open spec fn wf(&self) -> bool {
        &&& Self::hash_model()
        &&& self.left_slots().len() == self.spec_capacity()
        &&& self.right_slots().len() == self.spec_capacity()
        &&& index_inv(self.left_slots(), self.left_homes(), -1)
        &&& index_inv(self.right_slots(), self.right_homes(), -1)
        &&& self.left_values_seq().no_duplicates()
        &&& self.right_values_seq().no_duplicates()
        &&& under_max_load(self.buckets().len() as int, self.spec_capacity())
    }

    /// Create a new empty BiMap with indices of `capacity` slots and the
    /// given hashers.
    pub fn with_hashers(capacity: usize, hasher: H, reverse_hasher: RH) -> (map: Self)
        requires
            capacity > 0,
        ensures
            Self::hash_model() ==> map.wf(),
            map@ == Map::<T, U>::empty(),
            map.inverse() == Map::<U, T>::empty(),
            map.buckets() == Seq::<Bucket<T, U>>::empty(),
            map.spec_capacity() == capacity,
            map.left_slots().len() == capacity,
            map.right_slots().len() == capacity,
            map.indices_empty(),
            map.spec_hasher_left() == hasher,
            map.spec_hasher_right() == reverse_hasher,
    {
        let left_index = empty_index(capacity);
        let right_index = empty_index(capacity);
        let map = BiMap {
            data: Vec::with_capacity(capacity),
            left_index,
            right_index,
            hasher,
            reverse_hasher,
        };
        proof {
            lemma_empty_index_inv(map.left_slots(), map.left_homes());
            lemma_empty_index_inv(map.right_slots(), map.right_homes());
            assert(map@ =~= Map::<T, U>::empty());
            assert(map.inverse() =~= Map::<U, T>::empty());
        }
        map
    }

    /// Get the ideal index (i.e. without collisions) for a left value under
    /// the current container size.
    pub fn get_ideal_index_left(&self, left: &T) -> (index: usize)
        requires
            self.wf(),
        ensures
            index == ideal_index(self.spec_hasher_left(), *left, self.spec_capacity() as usize),
            index < self.spec_capacity(),
    {
        hash_to_index(&self.hasher, left, self.current_capacity())
    }

    /// Get the ideal index (i.e. without collisions) for a right value under
    /// the current container size.
    pub fn get_ideal_index_right(&self, right: &U) -> (index: usize)
        requires
            self.wf(),
        ensures
            index == ideal_index(self.spec_hasher_right(), *right, self.spec_capacity() as usize),
            index < self.spec_capacity(),
    {
        hash_to_index(&self.reverse_hasher, right, self.current_capacity())
    }

    /// Find the slot of the left index that refers to the bucket of `left`,
    /// or, where `left` is not in the map, the slot at which it would go in.
    pub fn lookup_index_left(&self, left: &T) -> (r: Result<usize, usize>)
        requires
            self.wf(),
        ensures
            match r {
                Ok(j) => {
                    &&& j < self.spec_capacity()
                    &&& self.left_slots()[j as int] != EMPTY_SLOT
                    &&& self.left_slots()[j as int] < self.left_values_seq().len()
                    &&& self.left_values_seq()[self.left_slots()[j as int] as int] == *left
                },
                Err(p) => {
                    &&& !self.left_values_seq().contains(*left)
                    &&& insertion_point(
                        self.left_slots(),
                        self.left_homes(),
                        ideal_index(self.spec_hasher_left(), *left, self.spec_capacity() as usize),
                        p as int,
                    )
                },
            },
    {
        let found = probe_index::<T, U, T, LeftSide, H>(
            left,
            &self.left_index,
            &self.hasher,
            self.data.as_slice(),
            self.current_capacity(),
        );
        proof {
            if found.is_err() {
                assert(absent(self.left_values_seq(), -1, *left));
            }
        }
        found
    }

    /// Find the slot of the right index that refers to the bucket of
    /// `right`, or, where `right` is not in the map, the slot at which it
    /// would go in.
    pub fn lookup_index_right(&self, right: &U) -> (r: Result<usize, usize>)
        requires
            self.wf(),
        ensures
            match r {
                Ok(j) => {
                    &&& j < self.spec_capacity()
                    &&& self.right_slots()[j as int] != EMPTY_SLOT
                    &&& self.right_slots()[j as int] < self.right_values_seq().len()
                    &&& self.right_values_seq()[self.right_slots()[j as int] as int] == *right
                },
                Err(p) => {
                    &&& !self.right_values_seq().contains(*right)
                    &&& insertion_point(
                        self.right_slots(),
                        self.right_homes(),
                        ideal_index(
                            self.spec_hasher_right(),
                            *right,
                            self.spec_capacity() as usize,
                        ),
                        p as int,
                    )
                },
            },
    {
        let found = probe_index::<T, U, U, RightSide, RH>(
            right,
            &self.right_index,
            &self.reverse_hasher,
            self.data.as_slice(),
            self.current_capacity(),
        );
        proof {
            if found.is_err() {
                assert(absent(self.right_values_seq(), -1, *right));
            }
        }
        found
    }

    /// Get the current capacity for both indices.
    pub fn current_capacity(&self) -> (capacity: usize)
        ensures
            capacity == self.spec_capacity(),
    {
        self.left_index.len()
    }

    /// Returns whether the map can fit additional `num` elements without
    /// exceeding the maximum load.
    pub fn can_fit(&self, num: usize) -> (r: bool)
        ensures
            r == self.spec_can_fit(num),
    {
        (self.data.len() as u128 + num as u128) * 10 < (self.left_index.len() as u128) * (
        MAX_LOAD_TENTHS as u128)
    }

    /// Get the right value for the given left value. If the left value is
    /// not in the map, None is returned.
    #[must_use]
    pub fn get_right(&self, left: &T) -> (r: Option<&U>)
        requires
            self.wf(),
        ensures
            match r {
                Some(right) => self@.contains_key(*left) && *right == self@[*left],
                None => !self@.contains_key(*left),
            },
    {
        match self.lookup_index_left(left) {
            Ok(index) => {
                proof {
                    lemma_pairing_at(
                        self.left_values_seq(),
                        self.right_values_seq(),
                        self.left_index[index as int] as int,
                    );
                }
                Some(&self.data[self.left_index[index]].right)
            },
            Err(_) => None,
        }
    }

    /// Get the left value for the given right value. If the right value is
    /// not in the map, None is returned.
    #[must_use]
    pub fn get_left(&self, right: &U) -> (r: Option<&T>)
        requires
            self.wf(),
        ensures
            match r {
                Some(left) => self.inverse().contains_key(*right) && *left
                    == self.inverse()[*right],
                None => !self.inverse().contains_key(*right),
            },
    {
        match self.lookup_index_right(right) {
            Ok(index) => {
                proof {
                    lemma_pairing_at(
                        self.right_values_seq(),
                        self.left_values_seq(),
                        self.right_index[index as int] as int,
                    );
                }
                Some(&self.data[self.right_index[index]].left)
            },
            Err(_) => None,
        }
    }

    /// Check if the map contains a mapping for the given left value.
    #[must_use]
    pub fn contains_left(&self, left: &T) -> (r: bool)
        requires
            self.wf(),
        ensures
            r == self@.contains_key(*left),
    {
        self.lookup_index_left(left).is_ok()
    }

    /// Check if the map contains a mapping for the given right value.
    #[must_use]
    pub fn contains_right(&self, right: &U) -> (r: bool)
        requires
            self.wf(),
        ensures
            r == self.inverse().contains_key(*right),
    {
        self.lookup_index_right(right).is_ok()
    }

    /// Returns the number of bijections stored in the map, meaning it is
    /// half the number of values.
    pub fn len(&self) -> (n: usize)
        ensures
            n == self.entries().len(),
            self.wf() ==> n == self@.len() && n == self.inverse().len(),
    {
        proof {
            if self.wf() {
                lemma_pairing_len(self.left_values_seq(), self.right_values_seq());
                lemma_pairing_len(self.right_values_seq(), self.left_values_seq());
            }
        }
        self.data.len()
    }

    /// Returns true if the map is empty.
    pub fn is_empty(&self) -> (r: bool)
        ensures
            r == (self.entries().len() == 0),
    {
        self.data.is_empty()
    }

    /// Returns a reference to the map's `BuildHasher` for left values.
    pub fn hasher_left(&self) -> (hasher: &H)
        ensures
            *hasher == self.spec_hasher_left(),
    {
        &self.hasher
    }

    /// Returns a reference to the map's `BuildHasher` for right values.
    pub fn hasher_right(&self) -> (hasher: &RH)
        ensures
            *hasher == self.spec_hasher_right(),
    {
        &self.reverse_hasher
    }
    /// Everything but the left index is the same in `self` and `other`.
    spec fn differs_in_left_index_only(&self, other: &Self) -> bool {
        &&& self.data == other.data
        &&& self.right_index == other.right_index
        &&& self.left_index.len() == other.left_index.len()
        &&& self.hasher == other.hasher
        &&& self.reverse_hasher == other.reverse_hasher
    }

    /// Everything but the right index is the same in `self` and `other`.
    spec fn differs_in_right_index_only(&self, other: &Self) -> bool {
        &&& self.data == other.data
        &&& self.left_index == other.left_index
        &&& self.right_index.len() == other.right_index.len()
        &&& self.hasher == other.hasher
        &&& self.reverse_hasher == other.reverse_hasher
    }

    /// Insert the slot number `bucket_index` into the left index at
    /// `mapping_index`, which must be the insertion point that
    /// `lookup_index_left` gave. The buckets from there up to the next empty
    /// slot move one slot forward.
    fn insert_mapping_left(&mut self, mapping_index: usize, bucket_index: usize)
        requires
            mapping_index < old(self).left_index.len(),
            exists|e: int|
                0 <= e < old(self).left_index.len() && #[trigger] old(self).left_index[e]
                    == EMPTY_SLOT,
        ensures
            final(self).differs_in_left_index_only(old(self)),
            exists|m: int|
                #[trigger] run_to_empty(old(self).left_index@, mapping_index as int, m)
                    && final(self).left_index@ == shift_forward(
                    old(self).left_index@,
                    mapping_index as int,
                    m,
                    bucket_index,
                ),
    {
        insert_mapping(&mut self.left_index, mapping_index, bucket_index)
    }

    /// Insert the slot number `bucket_index` into the right index at
    /// `mapping_index`, which must be the insertion point that
    /// `lookup_index_right` gave. The buckets from there up to the next empty
    /// slot move one slot forward.
    fn insert_mapping_right(&mut self, mapping_index: usize, bucket_index: usize)
        requires
            mapping_index < old(self).right_index.len(),
            exists|e: int|
                0 <= e < old(self).right_index.len() && #[trigger] old(self).right_index[e]
                    == EMPTY_SLOT,
        ensures
            final(self).differs_in_right_index_only(old(self)),
            exists|m: int|
                #[trigger] run_to_empty(old(self).right_index@, mapping_index as int, m)
                    && final(self).right_index@ == shift_forward(
                    old(self).right_index@,
                    mapping_index as int,
                    m,
                    bucket_index,
                ),
    {
        insert_mapping(&mut self.right_index, mapping_index, bucket_index)
    }

    /// Delete a mapping in the left index and move the displaced buckets
    /// that follow it one slot backward.
    fn delete_mapping_left(&mut self, mapping_index: usize)
        requires
            Self::hash_model(),
            mapping_index < old(self).left_index.len(),
            old(self).left_index[mapping_index as int] != EMPTY_SLOT,
            index_inv(old(self).left_index@, old(self).left_homes(), -1),
        ensures
            final(self).differs_in_left_index_only(old(self)),
            index_inv(
                final(self).left_index@,
                old(self).left_homes(),
                old(self).left_index[mapping_index as int] as int,
            ),
            exists|t: int|
                #[trigger] run_to_settled(
                    old(self).left_index@,
                    old(self).left_homes(),
                    mapping_index as int,
                    t,
                ) && final(self).left_index@ == shift_backward(
                    old(self).left_index@,
                    mapping_index as int,
                    t,
                ),
            final(self).left_index@ == without_mapping(
                old(self).left_index@,
                old(self).left_homes(),
                old(self).left_index[mapping_index as int] as int,
            ),
    {
        delete_mapping::<T, U, T, LeftSide, H>(
            &mut self.left_index,
            &self.hasher,
            self.data.as_slice(),
            mapping_index,
        );
        proof {
            let slots = old(self).left_index@;
            let homes = old(self).left_homes();
            let t = choose|t: int| #[trigger]
                run_to_settled(slots, homes, mapping_index as int, t) && self.left_index@
                    == shift_backward(slots, mapping_index as int, t);
            lemma_without_mapping(slots, homes, -1, mapping_index as int, t);
        }
    }

    /// Delete a mapping in the right index and move the displaced buckets
    /// that follow it one slot backward.
    fn delete_mapping_right(&mut self, mapping_index: usize)
        requires
            Self::hash_model(),
            old(self).left_index.len() == old(self).right_index.len(),
            mapping_index < old(self).right_index.len(),
            old(self).right_index[mapping_index as int] != EMPTY_SLOT,
            index_inv(old(self).right_index@, old(self).right_homes(), -1),
        ensures
            final(self).differs_in_right_index_only(old(self)),
            index_inv(
                final(self).right_index@,
                old(self).right_homes(),
                old(self).right_index[mapping_index as int] as int,
            ),
            exists|t: int|
                #[trigger] run_to_settled(
                    old(self).right_index@,
                    old(self).right_homes(),
                    mapping_index as int,
                    t,
                ) && final(self).right_index@ == shift_backward(
                    old(self).right_index@,
                    mapping_index as int,
                    t,
                ),
            final(self).right_index@ == without_mapping(
                old(self).right_index@,
                old(self).right_homes(),
                old(self).right_index[mapping_index as int] as int,
            ),
    {
        delete_mapping::<T, U, U, RightSide, RH>(
            &mut self.right_index,
            &self.reverse_hasher,
            self.data.as_slice(),
            mapping_index,
        );
        proof {
            let slots = old(self).right_index@;
            let homes = old(self).right_homes();
            let t = choose|t: int| #[trigger]
                run_to_settled(slots, homes, mapping_index as int, t) && self.right_index@
                    == shift_backward(slots, mapping_index as int, t);
            lemma_without_mapping(slots, homes, -1, mapping_index as int, t);
        }
    }

    /// Replace the bucket in slot `bucket_index` with a new bucket. The old
    /// bucket is returned. No changes to the indices are made.
    fn replace_bucket(&mut self, bucket_index: usize, bucket: Bucket<T, U>) -> (old_bucket: Bucket<
        T,
        U,
    >)
        requires
            bucket_index < old(self).data.len(),
        ensures
            old_bucket == old(self).data[bucket_index as int],
            final(self).data@ == old(self).data@.update(bucket_index as int, bucket),
            final(self).left_index == old(self).left_index,
            final(self).right_index == old(self).right_index,
            final(self).hasher == old(self).hasher,
            final(self).reverse_hasher == old(self).reverse_hasher,
    {
        self.data.push(bucket);
        let old_bucket = self.data.swap_remove(bucket_index);
        assert(self.data@ =~= old(self).data@.update(bucket_index as int, bucket));
        old_bucket
    }

    /// Push a new bucket to the tail of the store, and insert its slot
    /// number into both indices at the given insertion points. This is for a
    /// bucket whose left and right values are both new.
    fn push_new_bucket(&mut self, bucket: Bucket<T, U>, left_index: usize, right_index: usize)
        requires
            old(self).wf(),
            old(self).spec_can_fit(1),
            !old(self).left_values_seq().contains(bucket.left),
            !old(self).right_values_seq().contains(bucket.right),
            insertion_point(
                old(self).left_index@,
                old(self).left_homes(),
                ideal_index(old(self).hasher, bucket.left, old(self).left_index.len()),
                left_index as int,
            ),
            insertion_point(
                old(self).right_index@,
                old(self).right_homes(),
                ideal_index(old(self).reverse_hasher, bucket.right, old(self).right_index.len()),
                right_index as int,
            ),
        ensures
            final(self).wf(),
            final(self).data@ == old(self).data@.push(bucket),
            final(self).left_values_seq() == old(self).left_values_seq().push(bucket.left),
            final(self).right_values_seq() == old(self).right_values_seq().push(bucket.right),
            final(self).left_index@ == with_mapping(
                old(self).left_index@,
                old(self).left_homes(),
                ideal_index(old(self).hasher, bucket.left, old(self).left_index.len()),
                old(self).data.len(),
            ),
            final(self).right_index@ == with_mapping(
                old(self).right_index@,
                old(self).right_homes(),
                ideal_index(old(self).reverse_hasher, bucket.right, old(self).right_index.len()),
                old(self).data.len(),
            ),
            final(self).left_index.len() == old(self).left_index.len(),
            final(self).hasher == old(self).hasher,
            final(self).reverse_hasher == old(self).reverse_hasher,
    {
        let ghost lefts = self.left_values_seq();
        let ghost rights = self.right_values_seq();
        let ghost left_slots = self.left_index@;
        let ghost right_slots = self.right_index@;
        let ghost left_homes = self.left_homes();
        let ghost right_homes = self.right_homes();
        let ghost left_home = ideal_index(self.hasher, bucket.left, self.left_index.len());
        let ghost right_home = ideal_index(
            self.reverse_hasher,
            bucket.right,
            self.right_index.len(),
        );
        let bucket_index = self.data.len();
        proof {
            lemma_has_empty(left_slots, left_homes, -1);
            lemma_has_empty(right_slots, right_homes, -1);
            lemma_pairing_push(lefts, rights, bucket.left, bucket.right);
            lemma_pairing_push(rights, lefts, bucket.right, bucket.left);
        }
        self.data.push(bucket);
        self.insert_mapping_left(left_index, bucket_index);
        self.insert_mapping_right(right_index, bucket_index);
        proof {
            assert(self.left_values_seq() =~= lefts.push(bucket.left));
            assert(self.right_values_seq() =~= rights.push(bucket.right));
            let ml = choose|m: int| #[trigger]
                run_to_empty(left_slots, left_index as int, m) && self.left_index@
                    == shift_forward(left_slots, left_index as int, m, bucket_index);
            lemma_insert_new_keeps_inv(left_slots, left_homes, left_home, left_index as int, ml);
            lemma_with_mapping(
                left_slots,
                left_homes,
                left_home,
                bucket_index,
                left_index as int,
                ml,
            );
            assert(self.left_homes() =~= left_homes.push(left_home));
            let mr = choose|m: int| #[trigger]
                run_to_empty(right_slots, right_index as int, m) && self.right_index@
                    == shift_forward(right_slots, right_index as int, m, bucket_index);
            lemma_insert_new_keeps_inv(
                right_slots,
                right_homes,
                right_home,
                right_index as int,
                mr,
            );
            lemma_with_mapping(
                right_slots,
                right_homes,
                right_home,
                bucket_index,
                right_index as int,
                mr,
            );
            assert(self.right_homes() =~= right_homes.push(right_home));
        }
    }

    /// Delete the bucket in slot `bucket_index`, and its mappings in both
    /// indices. Where it is not the last bucket, the last bucket moves into
    /// its slot, and the entry of each index that refers to the last bucket
    /// is updated: a slot number of the last bucket that was taken before
    /// this call no longer holds after it.
    ///
    /// `left_meta_index` and `right_meta_index` are the slots of the indices
    /// that refer to the bucket to delete; where one is `None`, it is looked
    /// up.
    fn delete_bucket(
        &mut self,
        bucket_index: usize,
        left_meta_index: Option<usize>,
        right_meta_index: Option<usize>,
    ) -> (bucket: Bucket<T, U>)
        requires
            old(self).wf(),
            bucket_index < old(self).data.len(),
            match left_meta_index {
                Some(j) => j < old(self).left_index.len() && old(self).left_index[j as int]
                    == bucket_index,
                None => true,
            },
            match right_meta_index {
                Some(j) => j < old(self).right_index.len() && old(self).right_index[j as int]
                    == bucket_index,
                None => true,
            },
        ensures
            final(self).wf(),
            bucket == old(self).data[bucket_index as int],
            final(self).data@ == swap_removed(old(self).data@, bucket_index as int),
            final(self).left_values_seq() == swap_removed(
                old(self).left_values_seq(),
                bucket_index as int,
            ),
            final(self).right_values_seq() == swap_removed(
                old(self).right_values_seq(),
                bucket_index as int,
            ),
            final(self).left_index@ == without_bucket(
                old(self).left_index@,
                old(self).left_homes(),
                bucket_index as int,
            ),
            final(self).right_index@ == without_bucket(
                old(self).right_index@,
                old(self).right_homes(),
                bucket_index as int,
            ),
            final(self).left_index.len() == old(self).left_index.len(),
            final(self).hasher == old(self).hasher,
            final(self).reverse_hasher == old(self).reverse_hasher,
    {
        let ghost lefts = self.left_values_seq();
        let ghost rights = self.right_values_seq();
        let ghost left_homes = self.left_homes();
        let ghost right_homes = self.right_homes();
        let ghost gone = bucket_index as int;
        let capacity = self.left_index.len();
        let left_slot = match left_meta_index {
            Some(j) => j,
            None => match self.lookup_index_left(&self.data[bucket_index].left) {
                Ok(j) => {
                    assert(lefts[self.left_index[j as int] as int] == lefts[gone]);
                    j
                },
                Err(j) => {
                    assert(lefts[gone] == self.data[bucket_index as int].left);
                    assert(false);
                    j
                },
            },
        };
        let right_slot = match right_meta_index {
            Some(j) => j,
            None => match self.lookup_index_right(&self.data[bucket_index].right) {
                Ok(j) => {
                    assert(rights[self.right_index[j as int] as int] == rights[gone]);
                    j
                },
                Err(j) => {
                    assert(rights[gone] == self.data[bucket_index as int].right);
                    assert(false);
                    j
                },
            },
        };
        self.delete_mapping_left(left_slot);
        self.delete_mapping_right(right_slot);
        proof {
            lemma_pairing_swap_remove(lefts, rights, gone);
            lemma_pairing_swap_remove(rights, lefts, gone);
        }
        // trivial case: delete and return the last bucket
        let tail = self.data.len() - 1;
        if bucket_index == tail {
            let bucket = self.data.pop().unwrap();
            proof {
                lemma_drop_last_keeps_inv(self.left_index@, left_homes);
                lemma_drop_last_keeps_inv(self.right_index@, right_homes);
                assert(self.data@ =~= swap_removed(old(self).data@, gone));
                assert(self.left_values_seq() =~= swap_removed(lefts, gone));
                assert(self.right_values_seq() =~= swap_removed(rights, gone));
                assert(self.left_homes() =~= left_homes.drop_last());
                assert(self.right_homes() =~= right_homes.drop_last());
            }
            return bucket;
        }
        // find the entries of the bucket to move
        let left_moved = match probe_index::<T, U, T, LeftSide, H>(
            &self.data[tail].left,
            &self.left_index,
            &self.hasher,
            self.data.as_slice(),
            capacity,
        ) {
            Ok(j) => {
                assert(lefts[self.left_index[j as int] as int] == lefts[tail as int]);
                j
            },
            Err(j) => {
                assert(absent(lefts, gone, lefts[tail as int]));
                assert(false);
                j
            },
        };
        let right_moved = match probe_index::<T, U, U, RightSide, RH>(
            &self.data[tail].right,
            &self.right_index,
            &self.reverse_hasher,
            self.data.as_slice(),
            capacity,
        ) {
            Ok(j) => {
                assert(rights[self.right_index[j as int] as int] == rights[tail as int]);
                j
            },
            Err(j) => {
                assert(absent(rights, gone, rights[tail as int]));
                assert(false);
                j
            },
        };
        proof {
            lemma_repoint_keeps_inv(self.left_index@, left_homes, gone, left_moved as int);
            lemma_repoint_keeps_inv(self.right_index@, right_homes, gone, right_moved as int);
            let left_found = slot_of(self.left_index@, tail as int);
            assert(self.left_index@[left_found] == self.left_index@[left_moved as int]);
            let right_found = slot_of(self.right_index@, tail as int);
            assert(self.right_index@[right_found] == self.right_index@[right_moved as int]);
        }
        // update the entries of the moved bucket
        self.left_index.set(left_moved, bucket_index);
        self.right_index.set(right_moved, bucket_index);
        // swap with the last bucket and return the deleted bucket
        let bucket = self.data.swap_remove(bucket_index);
        proof {
            assert(self.left_values_seq() =~= swap_removed(lefts, gone));
            assert(self.right_values_seq() =~= swap_removed(rights, gone));
            assert(self.left_homes() =~= left_homes.update(
                gone,
                left_homes[tail as int],
            ).drop_last());
            assert(self.right_homes() =~= right_homes.update(
                gone,
                right_homes[tail as int],
            ).drop_last());
        }
        bucket
    }

    /// Bind the left value in slot `bucket_index` to the right value of
    /// `bucket`, which is new to the map: the mapping of the old right value
    /// leaves the right index, the bucket is replaced, and the mapping of
    /// the new right value goes in. Returns the old bucket.
    fn rebind_right(&mut self, bucket_index: usize, bucket: Bucket<T, U>) -> (old_bucket: Bucket<
        T,
        U,
    >)
        requires
            old(self).wf(),
            bucket_index < old(self).data.len(),
            old(self).data[bucket_index as int].left == bucket.left,
            !old(self).right_values_seq().contains(bucket.right),
        ensures
            final(self).wf(),
            old_bucket == old(self).data[bucket_index as int],
            final(self).data@ == old(self).data@.update(bucket_index as int, bucket),
            final(self).left_values_seq() == old(self).left_values_seq(),
            final(self).right_values_seq() == old(self).right_values_seq().update(
                bucket_index as int,
                bucket.right,
            ),
            final(self).left_index == old(self).left_index,
            final(self).right_index@ == with_moved_mapping(
                old(self).right_index@,
                old(self).right_homes(),
                bucket_index as int,
                ideal_index(old(self).reverse_hasher, bucket.right, old(self).right_index.len()),
            ),
            final(self).left_index.len() == old(self).left_index.len(),
            final(self).hasher == old(self).hasher,
            final(self).reverse_hasher == old(self).reverse_hasher,
    {
        let ghost lefts = self.left_values_seq();
        let ghost rights = self.right_values_seq();
        let ghost homes = self.right_homes();
        let ghost slot_number = bucket_index as int;
        let ghost home = ideal_index(self.reverse_hasher, bucket.right, self.right_index.len());
        let capacity = self.right_index.len();
        let slot = match self.lookup_index_right(&self.data[bucket_index].right) {
            Ok(j) => {
                assert(rights[self.right_index[j as int] as int] == rights[slot_number]);
                j
            },
            Err(j) => {
                assert(rights[slot_number] == self.data[bucket_index as int].right);
                assert(false);
                j
            },
        };
        self.delete_mapping_right(slot);
        proof {
            lemma_rehome_missing(self.right_index@, homes, slot_number, home);
            lemma_pairing_set_key(rights, lefts, slot_number, bucket.right);
        }
        let old_bucket = self.replace_bucket(bucket_index, bucket);
        proof {
            assert(self.left_values_seq() =~= lefts);
            assert(self.right_values_seq() =~= rights.update(slot_number, bucket.right));
            assert(self.right_homes() =~= homes.update(slot_number, home));
        }
        let ghost slots = self.right_index@;
        let point = match probe_index::<T, U, U, RightSide, RH>(
            &self.data[bucket_index].right,
            &self.right_index,
            &self.reverse_hasher,
            self.data.as_slice(),
            capacity,
        ) {
            Ok(j) => {
                proof {
                    let b = self.right_index[j as int] as int;
                    assert(rights[b] == bucket.right);
                    assert(false);
                }
                j
            },
            Err(j) => j,
        };
        proof {
            lemma_has_empty(slots, self.right_homes(), slot_number);
        }
        self.insert_mapping_right(point, bucket_index);
        proof {
            let m = choose|m: int| #[trigger]
                run_to_empty(slots, point as int, m) && self.right_index@ == shift_forward(
                    slots,
                    point as int,
                    m,
                    bucket_index,
                );
            lemma_insert_keeps_inv(slots, self.right_homes(), slot_number, point as int, m);
            lemma_with_mapping(slots, self.right_homes(), home, bucket_index, point as int, m);
        }
        old_bucket
    }

    /// Bind the right value in slot `bucket_index` to the left value of
    /// `bucket`, which is new to the map: the mapping of the old left value
    /// leaves the left index, the bucket is replaced, and the mapping of the
    /// new left value goes in. Returns the old bucket.
    fn rebind_left(&mut self, bucket_index: usize, bucket: Bucket<T, U>) -> (old_bucket: Bucket<
        T,
        U,
    >)
        requires
            old(self).wf(),
            bucket_index < old(self).data.len(),
            old(self).data[bucket_index as int].right == bucket.right,
            !old(self).left_values_seq().contains(bucket.left),
        ensures
            final(self).wf(),
            old_bucket == old(self).data[bucket_index as int],
            final(self).data@ == old(self).data@.update(bucket_index as int, bucket),
            final(self).right_values_seq() == old(self).right_values_seq(),
            final(self).left_values_seq() == old(self).left_values_seq().update(
                bucket_index as int,
                bucket.left,
            ),
            final(self).right_index == old(self).right_index,
            final(self).left_index@ == with_moved_mapping(
                old(self).left_index@,
                old(self).left_homes(),
                bucket_index as int,
                ideal_index(old(self).hasher, bucket.left, old(self).left_index.len()),
            ),
            final(self).left_index.len() == old(self).left_index.len(),
            final(self).hasher == old(self).hasher,
            final(self).reverse_hasher == old(self).reverse_hasher,
    {
        let ghost lefts = self.left_values_seq();
        let ghost rights = self.right_values_seq();
        let ghost homes = self.left_homes();
        let ghost slot_number = bucket_index as int;
        let ghost home = ideal_index(self.hasher, bucket.left, self.left_index.len());
        let capacity = self.left_index.len();
        let slot = match self.lookup_index_left(&self.data[bucket_index].left) {
            Ok(j) => {
                assert(lefts[self.left_index[j as int] as int] == lefts[slot_number]);
                j
            },
            Err(j) => {
                assert(lefts[slot_number] == self.data[bucket_index as int].left);
                assert(false);
                j
            },
        };
        self.delete_mapping_left(slot);
        proof {
            lemma_rehome_missing(self.left_index@, homes, slot_number, home);
            lemma_pairing_set_key(lefts, rights, slot_number, bucket.left);
        }
        let old_bucket = self.replace_bucket(bucket_index, bucket);
        proof {
            assert(self.right_values_seq() =~= rights);
            assert(self.left_values_seq() =~= lefts.update(slot_number, bucket.left));
            assert(self.left_homes() =~= homes.update(slot_number, home));
        }
        let ghost slots = self.left_index@;
        let point = match probe_index::<T, U, T, LeftSide, H>(
            &self.data[bucket_index].left,
            &self.left_index,
            &self.hasher,
            self.data.as_slice(),
            capacity,
        ) {
            Ok(j) => {
                proof {
                    let b = self.left_index[j as int] as int;
                    assert(lefts[b] == bucket.left);
                    assert(false);
                }
                j
            },
            Err(j) => j,
        };
        proof {
            lemma_has_empty(slots, self.left_homes(), slot_number);
        }
        self.insert_mapping_left(point, bucket_index);
        proof {
            let m = choose|m: int| #[trigger]
                run_to_empty(slots, point as int, m) && self.left_index@ == shift_forward(
                    slots,
                    point as int,
                    m,
                    bucket_index,
                );
            lemma_insert_keeps_inv(slots, self.left_homes(), slot_number, point as int, m);
            lemma_with_mapping(slots, self.left_homes(), home, bucket_index, point as int, m);
        }
        old_bucket
    }

    /// Rebuild both indices with `new_capacity` slots each. The pairs are
    /// not touched and keep their slot numbers.
    pub fn resize(&mut self, new_capacity: usize)
        requires
            old(self).wf(),
            under_max_load(old(self).buckets().len() as int, new_capacity as int),
        ensures
            final(self).wf(),
            final(self).spec_capacity() == new_capacity,
            final(self).left_slots() == old(self).left_slots_rebuilt(new_capacity),
            final(self).right_slots() == old(self).right_slots_rebuilt(new_capacity),
            final(self)@ == old(self)@,
            final(self).inverse() == old(self).inverse(),
            final(self).buckets() == old(self).buckets(),
            final(self).spec_hasher_left() == old(self).spec_hasher_left(),
            final(self).spec_hasher_right() == old(self).spec_hasher_right(),
    {
        let mut new_left_index = empty_index(new_capacity);
        let mut new_right_index = empty_index(new_capacity);
        let count = self.data.len();
        let ghost all_left_homes = homes_of(self.hasher, self.left_values_seq(), new_capacity);
        let ghost all_right_homes = homes_of(
            self.reverse_hasher,
            self.right_values_seq(),
            new_capacity,
        );
        proof {
            assert(new_left_index@ =~= rebuilt(all_left_homes, new_capacity as nat, 0));
            assert(new_right_index@ =~= rebuilt(all_right_homes, new_capacity as nat, 0));
            lemma_empty_index_inv(
                new_left_index@,
                homes_of(self.hasher, self.left_values_seq().subrange(0, 0), new_capacity),
            );
            lemma_empty_index_inv(
                new_right_index@,
                homes_of(self.reverse_hasher, self.right_values_seq().subrange(0, 0), new_capacity),
            );
        }
        let mut bucket_index: usize = 0;
        while bucket_index < count
            invariant
                self.wf(),
                count == self.data.len(),
                bucket_index <= count,
                count < new_capacity,
                new_left_index.len() == new_capacity,
                new_right_index.len() == new_capacity,
                all_left_homes == homes_of(self.hasher, self.left_values_seq(), new_capacity),
                all_right_homes == homes_of(
                    self.reverse_hasher,
                    self.right_values_seq(),
                    new_capacity,
                ),
                new_left_index@ == rebuilt(
                    all_left_homes,
                    new_capacity as nat,
                    bucket_index as int,
                ),
                new_right_index@ == rebuilt(
                    all_right_homes,
                    new_capacity as nat,
                    bucket_index as int,
                ),
                index_inv(
                    new_left_index@,
                    homes_of(
                        self.hasher,
                        self.left_values_seq().subrange(0, bucket_index as int),
                        new_capacity,
                    ),
                    -1,
                ),
                index_inv(
                    new_right_index@,
                    homes_of(
                        self.reverse_hasher,
                        self.right_values_seq().subrange(0, bucket_index as int),
                        new_capacity,
                    ),
                    -1,
                ),
            decreases count - bucket_index,
        {
            let ghost lefts_before = self.left_values_seq().subrange(0, bucket_index as int);
            let ghost rights_before = self.right_values_seq().subrange(0, bucket_index as int);
            let ghost left_homes = homes_of(self.hasher, lefts_before, new_capacity);
            let ghost right_homes = homes_of(self.reverse_hasher, rights_before, new_capacity);
            let ghost left_slots = new_left_index@;
            let ghost right_slots = new_right_index@;
            // only the buckets that went in already are looked at
            let reprocessed = slice_subrange(self.data.as_slice(), 0, bucket_index);
            proof {
                assert(keys_of::<T, U, T, LeftSide>(reprocessed@) =~= lefts_before);
                assert(keys_of::<T, U, U, RightSide>(reprocessed@) =~= rights_before);
            }
            let left_element_index = match probe_index::<T, U, T, LeftSide, H>(
                &self.data[bucket_index].left,
                &new_left_index,
                &self.hasher,
                reprocessed,
                new_capacity,
            ) {
                Ok(j) => {
                    proof {
                        let b = new_left_index[j as int] as int;
                        assert(lefts_before[b] == self.left_values_seq()[b]);
                        assert(self.left_values_seq()[b] == self.left_values_seq()[bucket_index
                            as int]);
                        assert(false);
                    }
                    j
                },
                Err(j) => j,
            };
            let right_element_index = match probe_index::<T, U, U, RightSide, RH>(
                &self.data[bucket_index].right,
                &new_right_index,
                &self.reverse_hasher,
                reprocessed,
                new_capacity,
            ) {
                Ok(j) => {
                    proof {
                        let b = new_right_index[j as int] as int;
                        assert(rights_before[b] == self.right_values_seq()[b]);
                        assert(self.right_values_seq()[b] == self.right_values_seq()[bucket_index
                            as int]);
                        assert(false);
                    }
                    j
                },
                Err(j) => j,
            };
            proof {
                lemma_has_empty(left_slots, left_homes, -1);
                lemma_has_empty(right_slots, right_homes, -1);
            }
            insert_mapping(&mut new_left_index, left_element_index, bucket_index);
            insert_mapping(&mut new_right_index, right_element_index, bucket_index);
            proof {
                let left_home = ideal_index(
                    self.hasher,
                    self.left_values_seq()[bucket_index as int],
                    new_capacity,
                );
                let right_home = ideal_index(
                    self.reverse_hasher,
                    self.right_values_seq()[bucket_index as int],
                    new_capacity,
                );
                let ml = choose|m: int| #[trigger]
                    run_to_empty(left_slots, left_element_index as int, m) && new_left_index@
                        == shift_forward(left_slots, left_element_index as int, m, bucket_index);
                lemma_insert_new_keeps_inv(
                    left_slots,
                    left_homes,
                    left_home,
                    left_element_index as int,
                    ml,
                );
                assert forall|j: int|
                    0 <= j < left_slots.len() && #[trigger] left_slots[j]
                        != EMPTY_SLOT implies left_homes[left_slots[j] as int]
                    == all_left_homes[left_slots[j] as int] by {
                    let b = left_slots[j] as int;
                    assert(lefts_before[b] == self.left_values_seq()[b]);
                }
                lemma_insertion_point_stable(
                    left_slots,
                    left_homes,
                    all_left_homes,
                    left_home,
                    left_element_index as int,
                );
                lemma_with_mapping(
                    left_slots,
                    all_left_homes,
                    left_home,
                    bucket_index,
                    left_element_index as int,
                    ml,
                );
                let mr = choose|m: int| #[trigger]
                    run_to_empty(right_slots, right_element_index as int, m) && new_right_index@
                        == shift_forward(right_slots, right_element_index as int, m, bucket_index);
                lemma_insert_new_keeps_inv(
                    right_slots,
                    right_homes,
                    right_home,
                    right_element_index as int,
                    mr,
                );
                assert forall|j: int|
                    0 <= j < right_slots.len() && #[trigger] right_slots[j]
                        != EMPTY_SLOT implies right_homes[right_slots[j] as int]
                    == all_right_homes[right_slots[j] as int] by {
                    let b = right_slots[j] as int;
                    assert(rights_before[b] == self.right_values_seq()[b]);
                }
                lemma_insertion_point_stable(
                    right_slots,
                    right_homes,
                    all_right_homes,
                    right_home,
                    right_element_index as int,
                );
                lemma_with_mapping(
                    right_slots,
                    all_right_homes,
                    right_home,
                    bucket_index,
                    right_element_index as int,
                    mr,
                );
                assert(homes_of(
                    self.hasher,
                    self.left_values_seq().subrange(0, bucket_index + 1),
                    new_capacity,
                ) =~= left_homes.push(left_home));
                assert(homes_of(
                    self.reverse_hasher,
                    self.right_values_seq().subrange(0, bucket_index + 1),
                    new_capacity,
                ) =~= right_homes.push(right_home));
            }
            bucket_index += 1;
        }
        proof {
            assert(self.left_values_seq().subrange(0, count as int) =~= self.left_values_seq());
            assert(self.right_values_seq().subrange(0, count as int) =~= self.right_values_seq());
        }
        self.left_index = new_left_index;
        self.right_index = new_right_index;
    }

    /// Grow the map according to the growth factor: the indices get twice
    /// as many slots.
    pub fn grow(&mut self)
        requires
            old(self).wf(),
            old(self).spec_capacity() * GROWTH_FACTOR <= usize::MAX,
        ensures
            final(self).wf(),
            final(self).spec_capacity() == old(self).spec_capacity() * GROWTH_FACTOR,
            final(self).spec_can_fit(1),
            final(self).left_slots() == old(self).left_slots_rebuilt(
                (old(self).spec_capacity() * GROWTH_FACTOR) as usize,
            ),
            final(self).right_slots() == old(self).right_slots_rebuilt(
                (old(self).spec_capacity() * GROWTH_FACTOR) as usize,
            ),
            final(self)@ == old(self)@,
            final(self).inverse() == old(self).inverse(),
            final(self).buckets() == old(self).buckets(),
            final(self).spec_hasher_left() == old(self).spec_hasher_left(),
            final(self).spec_hasher_right() == old(self).spec_hasher_right(),
    {
        let new_capacity = self.current_capacity() * GROWTH_FACTOR;
        self.resize(new_capacity)
    }

    /// Inserts a value pair into the map, creating a bijection between the
    /// two values.
    ///
    /// Where the left value was bound, its old right value is unbound and
    /// returned first; where the right value was bound, its old left value is
    /// unbound and returned second. Where both were bound, but not to each
    /// other, the map ends with one pair less. Where the pair was in the map
    /// already, nothing changes and both values are returned.
    ///
    /// If the map is near full, the indices grow first. The map never
    /// shrinks by itself.
    pub fn insert(&mut self, left: T, right: U) -> (r: (Option<U>, Option<T>))
        requires
            old(self).wf(),
            !old(self).spec_can_fit(1) ==> old(self).spec_capacity() * GROWTH_FACTOR <= usize::MAX,
        ensures
            final(self).wf(),
            r.0 == old(self)@.get(left),
            r.1 == old(self).inverse().get(right),
            final(self)@ == rebound(old(self)@, old(self).inverse(), left, right),
            final(self).inverse() == rebound(old(self).inverse(), old(self)@, right, left),
            final(self).buckets() == store_after_insert(old(self).buckets(), left, right),
            final(self).left_slots() == old(self).left_slots_after_insert(left, right),
            final(self).right_slots() == old(self).right_slots_after_insert(left, right),
            final(self).spec_capacity() == old(self).capacity_with_room(),
            final(self).spec_hasher_left() == old(self).spec_hasher_left(),
            final(self).spec_hasher_right() == old(self).spec_hasher_right(),
    {
        if !self.can_fit(1) {
            self.grow();
        }
        let ghost lefts = self.left_values_seq();
        let ghost rights = self.right_values_seq();
        let ghost bound = self@;
        let ghost back = self.inverse();
        let ghost right_homes = self.right_homes();
        let left_index = self.lookup_index_left(&left);
        let right_index = self.lookup_index_right(&right);
        match left_index {
            Ok(left_meta_index) => {
                // the bucket where the left element is currently stored
                let mut left_bucket = self.left_index[left_meta_index];
                let mut old_left = None;
                proof {
                    lemma_pairing_at(lefts, rights, left_bucket as int);
                    lemma_pairing_at(rights, lefts, left_bucket as int);
                }
                match right_index {
                    Ok(right_meta_index) => {
                        // the bucket where the right element is currently stored
                        let right_bucket = self.right_index[right_meta_index];
                        proof {
                            lemma_pairing_at(lefts, rights, right_bucket as int);
                            lemma_pairing_at(rights, lefts, right_bucket as int);
                        }
                        if left_bucket != right_bucket {
                            // delete the right bucket
                            let bucket = self.delete_bucket(
                                right_bucket,
                                None,
                                Some(right_meta_index),
                            );
                            proof {
                                lemma_pairing_swap_remove(lefts, rights, right_bucket as int);
                                lemma_pairing_swap_remove(rights, lefts, right_bucket as int);
                                assert(self.right_homes() =~= swap_removed(
                                    right_homes,
                                    right_bucket as int,
                                ));
                            }
                            // the last bucket has moved into the freed slot
                            if left_bucket == self.len() {
                                left_bucket = right_bucket;
                            }
                            old_left = Some(bucket.left);
                        } else {
                            // old mapping is equal to the new mapping, do nothing
                            proof {
                                assert(rebound(bound, back, left, right) =~= bound);
                                assert(rebound(back, bound, right, left) =~= back);
                                assert(lefts.contains(left) && rights.contains(right));
                            }
                            return (Some(right), Some(left));
                        }
                    },
                    Err(_) => {},
                }
                let ghost lefts_now = self.left_values_seq();
                let ghost rights_now = self.right_values_seq();
                proof {
                    lemma_pairing_set_val(lefts_now, rights_now, left_bucket as int, right);
                    lemma_pairing_set_key(rights_now, lefts_now, left_bucket as int, right);
                }
                // the left index already points to this bucket
                let bucket = self.rebind_right(left_bucket, Bucket { left, right });
                proof {
                    assert(self@ =~= rebound(bound, back, left, right));
                    assert(self.inverse() =~= rebound(back, bound, right, left));
                    assert(lefts.contains(left));
                }
                (Some(bucket.right), old_left)
            },
            Err(left_point) => {
                match right_index {
                    Ok(right_meta_index) => {
                        let right_bucket = self.right_index[right_meta_index];
                        proof {
                            lemma_pairing_at(lefts, rights, right_bucket as int);
                            lemma_pairing_at(rights, lefts, right_bucket as int);
                            lemma_pairing_set_val(rights, lefts, right_bucket as int, left);
                            lemma_pairing_set_key(lefts, rights, right_bucket as int, left);
                        }
                        // the right index already points to this bucket
                        let bucket = self.rebind_left(right_bucket, Bucket { left, right });
                        proof {
                            assert(self@ =~= rebound(bound, back, left, right));
                            assert(self.inverse() =~= rebound(back, bound, right, left));
                            assert(rights.contains(right));
                        }
                        (None, Some(bucket.left))
                    },
                    Err(right_point) => {
                        proof {
                            lemma_pairing_push(lefts, rights, left, right);
                            lemma_pairing_push(rights, lefts, right, left);
                        }
                        self.push_new_bucket(Bucket { left, right }, left_point, right_point);
                        proof {
                            assert(self@ =~= rebound(bound, back, left, right));
                            assert(self.inverse() =~= rebound(back, bound, right, left));
                        }
                        (None, None)
                    },
                }
            },
        }
    }

    /// Tries to insert a value pair into the map, creating a bijection
    /// between the two values.
    ///
    /// If the map already had one of the values present, nothing is updated,
    /// and an error containing the present values is returned: first the
    /// right value that the left value is bound to, then the left value that
    /// the right value is bound to. If the map had neither, the pair is
    /// inserted and `Ok` is returned.
    ///
    /// If the map is near full and the pair goes in, the indices grow first.
    pub fn try_insert(&mut self, left: T, right: U) -> (r: Result<(), (Option<&U>, Option<&T>)>)
        requires
            old(self).wf(),
            !old(self)@.contains_key(left) && !old(self).inverse().contains_key(right)
                && !old(self).spec_can_fit(1) ==> old(self).spec_capacity() * GROWTH_FACTOR
                <= usize::MAX,
        ensures
            final(self).wf(),
            final(self).spec_hasher_left() == old(self).spec_hasher_left(),
            final(self).spec_hasher_right() == old(self).spec_hasher_right(),
            match r {
                Ok(_) => {
                    &&& !old(self)@.contains_key(left)
                    &&& !old(self).inverse().contains_key(right)
                    &&& final(self)@ == old(self)@.insert(left, right)
                    &&& final(self).inverse() == old(self).inverse().insert(right, left)
                    &&& final(self).buckets() == old(self).buckets().push((Bucket { left, right }))
                    &&& final(self).left_slots() == old(self).left_slots_after_insert(left, right)
                    &&& final(self).right_slots() == old(self).right_slots_after_insert(left, right)
                    &&& final(self).spec_capacity() == old(self).capacity_with_room()
                },
                Err((present_right, present_left)) => {
                    &&& old(self)@.contains_key(left) || old(self).inverse().contains_key(right)
                    &&& final(self).buckets() == old(self).buckets()
                    &&& final(self).left_slots() == old(self).left_slots()
                    &&& final(self).right_slots() == old(self).right_slots()
                    &&& final(self).spec_capacity() == old(self).spec_capacity()
                    &&& match present_right {
                        Some(v) => old(self)@.contains_key(left) && *v == old(self)@[left],
                        None => !old(self)@.contains_key(left),
                    }
                    &&& match present_left {
                        Some(v) => old(self).inverse().contains_key(right) && *v
                            == old(self).inverse()[right],
                        None => !old(self).inverse().contains_key(right),
                    }
                },
            },
    {
        let ghost lefts = self.left_values_seq();
        let ghost rights = self.right_values_seq();
        let left_index = self.lookup_index_left(&left);
        let right_index = self.lookup_index_right(&right);
        match (left_index, right_index) {
            (Err(left_point), Err(right_point)) => {
                proof {
                    lemma_pairing_push(lefts, rights, left, right);
                    lemma_pairing_push(rights, lefts, right, left);
                }
                if !self.can_fit(1) {
                    self.grow();
                    // the insertion points are those of the new indices
                    let left_point = match self.lookup_index_left(&left) {
                        Ok(j) => {
                            assert(false);
                            j
                        },
                        Err(j) => j,
                    };
                    let right_point = match self.lookup_index_right(&right) {
                        Ok(j) => {
                            assert(false);
                            j
                        },
                        Err(j) => j,
                    };
                    self.push_new_bucket(Bucket { left, right }, left_point, right_point);
                } else {
                    self.push_new_bucket(Bucket { left, right }, left_point, right_point);
                }
                Ok(())
            },
            (left_index, right_index) => {
                let present_right = match left_index {
                    Ok(index) => {
                        proof {
                            lemma_pairing_at(lefts, rights, self.left_index[index as int] as int);
                        }
                        Some(&self.data[self.left_index[index]].right)
                    },
                    Err(_) => None,
                };
                let present_left = match right_index {
                    Ok(index) => {
                        proof {
                            lemma_pairing_at(rights, lefts, self.right_index[index as int] as int);
                        }
                        Some(&self.data[self.right_index[index]].left)
                    },
                    Err(_) => None,
                };
                Err((present_right, present_left))
            },
        }
    }

    /// Deletes the mappings for the given left value and returns the right
    /// value that was mapped to it. If the left value is not in the map, None
    /// is returned.
    pub fn remove_left(&mut self, left: &T) -> (r: Option<U>)
        requires
            old(self).wf(),
        ensures
            final(self).wf(),
            r == old(self)@.get(*left),
            final(self)@ == old(self)@.remove(*left),
            final(self).inverse() == (match r {
                Some(right) => old(self).inverse().remove(right),
                None => old(self).inverse(),
            }),
            r.is_none() ==> final(self).buckets() == old(self).buckets(),
            r.is_some() ==> final(self).buckets() == swap_removed(
                old(self).buckets(),
                old(self).left_values_seq().index_of(*left),
            ),
            final(self).left_slots() == (if r.is_some() {
                without_bucket(
                    old(self).left_slots(),
                    old(self).left_homes(),
                    old(self).left_values_seq().index_of(*left),
                )
            } else {
                old(self).left_slots()
            }),
            final(self).right_slots() == (if r.is_some() {
                without_bucket(
                    old(self).right_slots(),
                    old(self).right_homes(),
                    old(self).left_values_seq().index_of(*left),
                )
            } else {
                old(self).right_slots()
            }),
            final(self).spec_capacity() == old(self).spec_capacity(),
            final(self).spec_hasher_left() == old(self).spec_hasher_left(),
            final(self).spec_hasher_right() == old(self).spec_hasher_right(),
    {
        let ghost lefts = self.left_values_seq();
        let ghost rights = self.right_values_seq();
        match self.lookup_index_left(left) {
            Ok(left_meta_index) => {
                let bucket = self.left_index[left_meta_index];
                proof {
                    lemma_pairing_at(lefts, rights, bucket as int);
                    lemma_pairing_swap_remove(lefts, rights, bucket as int);
                    lemma_pairing_swap_remove(rights, lefts, bucket as int);
                }
                // delete the bucket
                let bucket = self.delete_bucket(bucket, Some(left_meta_index), None);
                Some(bucket.right)
            },
            Err(_) => {
                proof {
                    assert(self@.remove(*left) =~= self@);
                }
                None
            },
        }
    }

    /// Deletes the mappings for the given right value and returns the left
    /// value that was mapped to it. If the right value is not in the map,
    /// None is returned.
    pub fn remove_right(&mut self, right: &U) -> (r: Option<T>)
        requires
            old(self).wf(),
        ensures
            final(self).wf(),
            r == old(self).inverse().get(*right),
            final(self).inverse() == old(self).inverse().remove(*right),
            final(self)@ == (match r {
                Some(left) => old(self)@.remove(left),
                None => old(self)@,
            }),
            r.is_none() ==> final(self).buckets() == old(self).buckets(),
            r.is_some() ==> final(self).buckets() == swap_removed(
                old(self).buckets(),
                old(self).right_values_seq().index_of(*right),
            ),
            final(self).left_slots() == (if r.is_some() {
                without_bucket(
                    old(self).left_slots(),
                    old(self).left_homes(),
                    old(self).right_values_seq().index_of(*right),
                )
            } else {
                old(self).left_slots()
            }),
            final(self).right_slots() == (if r.is_some() {
                without_bucket(
                    old(self).right_slots(),
                    old(self).right_homes(),
                    old(self).right_values_seq().index_of(*right),
                )
            } else {
                old(self).right_slots()
            }),
            final(self).spec_capacity() == old(self).spec_capacity(),
            final(self).spec_hasher_left() == old(self).spec_hasher_left(),
            final(self).spec_hasher_right() == old(self).spec_hasher_right(),
    {
        let ghost lefts = self.left_values_seq();
        let ghost rights = self.right_values_seq();
        match self.lookup_index_right(right) {
            Ok(right_meta_index) => {
                let bucket = self.right_index[right_meta_index];
                proof {
                    lemma_pairing_at(rights, lefts, bucket as int);
                    lemma_pairing_swap_remove(lefts, rights, bucket as int);
                    lemma_pairing_swap_remove(rights, lefts, bucket as int);
                }
                // delete the bucket
                let bucket = self.delete_bucket(bucket, None, Some(right_meta_index));
                Some(bucket.left)
            },
            Err(_) => {
                proof {
                    assert(self.inverse().remove(*right) =~= self.inverse());
                }
                None
            },
        }
    }

    /// Reserves capacity for at least `additional` more pairs to be inserted
    /// in the map. Does nothing if the capacity is already sufficient.
    pub fn reserve(&mut self, additional: usize)
        requires
            old(self).wf(),
            !old(self).spec_can_fit(additional) ==> loaded_capacity(
                old(self).buckets().len() + additional,
            ) <= usize::MAX,
        ensures
            final(self).wf(),
            final(self).spec_can_fit(additional),
            final(self).spec_capacity() == (if old(self).spec_can_fit(additional) {
                old(self).spec_capacity()
            } else {
                loaded_capacity(old(self).buckets().len() + additional)
            }),
            final(self).left_slots() == (if old(self).spec_can_fit(additional) {
                old(self).left_slots()
            } else {
                old(self).left_slots_rebuilt(
                    loaded_capacity(old(self).buckets().len() + additional) as usize,
                )
            }),
            final(self).right_slots() == (if old(self).spec_can_fit(additional) {
                old(self).right_slots()
            } else {
                old(self).right_slots_rebuilt(
                    loaded_capacity(old(self).buckets().len() + additional) as usize,
                )
            }),
            final(self)@ == old(self)@,
            final(self).inverse() == old(self).inverse(),
            final(self).buckets() == old(self).buckets(),
            final(self).spec_hasher_left() == old(self).spec_hasher_left(),
            final(self).spec_hasher_right() == old(self).spec_hasher_right(),
    {
        if !self.can_fit(additional) {
            proof {
                lemma_loaded_capacity_fits(self.data.len() + additional);
            }
            let new_capacity = apply_load_factor(self.len() + additional);
            self.resize(new_capacity);
        }
    }

    /// Shrinks the capacity of the map as much as possible: the indices get
    /// the size that the load policy asks for the pairs that are in the map.
    pub fn shrink_to_fit(&mut self)
        requires
            old(self).wf(),
        ensures
            final(self).wf(),
            final(self).spec_capacity() == loaded_capacity(old(self).buckets().len() as int),
            final(self).spec_capacity() <= old(self).spec_capacity(),
            final(self).left_slots() == old(self).left_slots_rebuilt(
                loaded_capacity(old(self).buckets().len() as int) as usize,
            ),
            final(self).right_slots() == old(self).right_slots_rebuilt(
                loaded_capacity(old(self).buckets().len() as int) as usize,
            ),
            final(self)@ == old(self)@,
            final(self).inverse() == old(self).inverse(),
            final(self).buckets() == old(self).buckets(),
            final(self).spec_hasher_left() == old(self).spec_hasher_left(),
            final(self).spec_hasher_right() == old(self).spec_hasher_right(),
    {
        proof {
            lemma_loaded_capacity_fits(self.data.len() as int);
        }
        // we want to leave some space to avoid too many collisions
        let new_capacity = apply_load_factor(self.len());
        self.resize(new_capacity);
        shrink_store(&mut self.data);
    }

    /// Shrinks the capacity of the map with a lower bound: the indices get
    /// the size that the load policy asks for `capacity` pairs, or for the
    /// pairs that are in the map if they are more. Does nothing where that
    /// would not make the indices smaller.
    pub fn shrink_to(&mut self, capacity: usize)
        requires
            old(self).wf(),
        ensures
            final(self).wf(),
            final(self).spec_capacity() == ({
                let keep = if capacity as int > old(self).buckets().len() {
                    capacity as int
                } else {
                    old(self).buckets().len() as int
                };
                if loaded_capacity(keep) < old(self).spec_capacity() {
                    loaded_capacity(keep)
                } else {
                    old(self).spec_capacity()
                }
            }),
            final(self).left_slots() == (if final(self).spec_capacity() < old(
                self
            ).spec_capacity() {
                old(self).left_slots_rebuilt(final(self).spec_capacity() as usize)
            } else {
                old(self).left_slots()
            }),
            final(self).right_slots() == (if final(self).spec_capacity() < old(
                self
            ).spec_capacity() {
                old(self).right_slots_rebuilt(final(self).spec_capacity() as usize)
            } else {
                old(self).right_slots()
            }),
            final(self)@ == old(self)@,
            final(self).inverse() == old(self).inverse(),
            final(self).buckets() == old(self).buckets(),
            final(self).spec_hasher_left() == old(self).spec_hasher_left(),
            final(self).spec_hasher_right() == old(self).spec_hasher_right(),
    {
        let keep = if capacity > self.len() {
            capacity
        } else {
            self.len()
        };
        proof {
            lemma_loaded_capacity_fits(keep as int);
        }
        match checked_load_factor(keep) {
            Some(new_capacity) => {
                if new_capacity < self.current_capacity() {
                    self.resize(new_capacity);
                }
            },
            None => {},
        }
    }

    /// Clears the map, removing all mappings. Keeps the allocated memory
    /// for reuse.
    pub fn clear(&mut self)
        requires
            old(self).wf(),
        ensures
            final(self).wf(),
            final(self).buckets() == Seq::<Bucket<T, U>>::empty(),
            final(self)@ == Map::<T, U>::empty(),
            final(self).inverse() == Map::<U, T>::empty(),
            final(self).indices_empty(),
            final(self).spec_capacity() == old(self).spec_capacity(),
            final(self).spec_hasher_left() == old(self).spec_hasher_left(),
            final(self).spec_hasher_right() == old(self).spec_hasher_right(),
    {
        self.data.clear();
        fill_empty(&mut self.left_index);
        fill_empty(&mut self.right_index);
        proof {
            lemma_empty_index_inv(self.left_slots(), self.left_homes());
            lemma_empty_index_inv(self.right_slots(), self.right_homes());
            assert(self@ =~= Map::<T, U>::empty());
            assert(self.inverse() =~= Map::<U, T>::empty());
        }
    }

    /// Returns the pairs of the map, in slot order.
    pub fn iter(&self) -> (pairs: Vec<(&T, &U)>)
        ensures
            pairs.len() == self.entries().len(),
            forall|i: int|
                0 <= i < pairs.len() ==> (*(#[trigger] pairs[i]).0, *pairs[i].1)
                    == self.entries()[i],
    {
        let mut pairs: Vec<(&T, &U)> = Vec::with_capacity(self.data.len());
        let mut slot: usize = 0;
        while slot < self.data.len()
            invariant
                slot <= self.data.len(),
                pairs.len() == slot,
                forall|i: int|
                    0 <= i < slot ==> (*(#[trigger] pairs[i]).0, *pairs[i].1) == self.entries()[i],
            decreases self.data.len() - slot,
        {
            pairs.push((&self.data[slot].left, &self.data[slot].right));
            slot += 1;
        }
        pairs
    }

    /// Returns the left values of the map, in slot order.
    pub fn left_values(&self) -> (values: Vec<&T>)
        ensures
            values.len() == self.left_values_seq().len(),
            forall|i: int|
                0 <= i < values.len() ==> *#[trigger] values[i] == self.left_values_seq()[i],
    {
        let mut values: Vec<&T> = Vec::with_capacity(self.data.len());
        let mut slot: usize = 0;
        while slot < self.data.len()
            invariant
                slot <= self.data.len(),
                values.len() == slot,
                forall|i: int| 0 <= i < slot ==> *#[trigger] values[i] == self.left_values_seq()[i],
            decreases self.data.len() - slot,
        {
            values.push(&self.data[slot].left);
            slot += 1;
        }
        values
    }

    /// Returns the right values of the map, in slot order.
    pub fn right_values(&self) -> (values: Vec<&U>)
        ensures
            values.len() == self.right_values_seq().len(),
            forall|i: int|
                0 <= i < values.len() ==> *#[trigger] values[i] == self.right_values_seq()[i],
    {
        let mut values: Vec<&U> = Vec::with_capacity(self.data.len());
        let mut slot: usize = 0;
        while slot < self.data.len()
            invariant
                slot <= self.data.len(),
                values.len() == slot,
                forall|i: int|
                    0 <= i < slot ==> *#[trigger] values[i] == self.right_values_seq()[i],
            decreases self.data.len() - slot,
        {
            values.push(&self.data[slot].right);
            slot += 1;
        }
        values
    }

    /// Removes all pairs from the map and returns them, in slot order.
    pub fn drain(&mut self) -> (pairs: Vec<(T, U)>)
        requires
            old(self).wf(),
        ensures
            final(self).wf(),
            pairs@ == old(self).entries(),
            final(self).buckets() == Seq::<Bucket<T, U>>::empty(),
            final(self)@ == Map::<T, U>::empty(),
            final(self).inverse() == Map::<U, T>::empty(),
            final(self).indices_empty(),
            final(self).spec_capacity() == old(self).spec_capacity(),
            final(self).spec_hasher_left() == old(self).spec_hasher_left(),
            final(self).spec_hasher_right() == old(self).spec_hasher_right(),
    {
        let ghost lefts = self.left_values_seq();
        let ghost rights = self.right_values_seq();
        let count = self.data.len();
        let mut reversed: Vec<(T, U)> = Vec::with_capacity(count);
        while self.data.len() > 0
            invariant
                lefts.len() == count,
                rights.len() == count,
                self.data.len() + reversed.len() == count,
                self.data@ == old(self).data@.subrange(0, self.data.len() as int),
                lefts == keys_of::<T, U, T, LeftSide>(old(self).data@),
                rights == keys_of::<T, U, U, RightSide>(old(self).data@),
                forall|i: int|
                    0 <= i < reversed.len() ==> #[trigger] reversed[i] == (
                        lefts[count - 1 - i],
                        rights[count - 1 - i],
                    ),
                self.left_index.len() == old(self).left_index.len(),
                self.right_index.len() == old(self).right_index.len(),
                self.hasher == old(self).hasher,
                self.reverse_hasher == old(self).reverse_hasher,
            decreases self.data.len(),
        {
            let bucket = self.data.pop().unwrap();
            reversed.push((bucket.left, bucket.right));
        }
        let mut pairs: Vec<(T, U)> = Vec::with_capacity(count);
        while reversed.len() > 0
            invariant
                lefts.len() == count,
                rights.len() == count,
                pairs.len() + reversed.len() == count,
                forall|i: int|
                    0 <= i < reversed.len() ==> #[trigger] reversed[i] == (
                        lefts[count - 1 - i],
                        rights[count - 1 - i],
                    ),
                forall|i: int|
                    0 <= i < pairs.len() ==> #[trigger] pairs[i] == (lefts[i], rights[i]),
            decreases reversed.len(),
        {
            let pair = reversed.pop().unwrap();
            pairs.push(pair);
        }
        fill_empty(&mut self.left_index);
        fill_empty(&mut self.right_index);
        proof {
            lemma_empty_index_inv(self.left_slots(), self.left_homes());
            lemma_empty_index_inv(self.right_slots(), self.right_homes());
            assert(self.left_values_seq() =~= Seq::<T>::empty());
            assert(self.right_values_seq() =~= Seq::<U>::empty());
            assert(self@ =~= Map::<T, U>::empty());
            assert(self.inverse() =~= Map::<U, T>::empty());
            assert(pairs@ =~= old(self).entries());
        }
        pairs
    }

    /// The slots of the left index: each is `EMPTY_SLOT` or a slot number
    /// of the store.
    pub fn left_index(&self) -> (slots: &Vec<usize>)
        ensures
            slots@ == self.left_slots(),
    {
        &self.left_index
    }

    /// The slots of the right index: each is `EMPTY_SLOT` or a slot number
    /// of the store.
    pub fn right_index(&self) -> (slots: &Vec<usize>)
        ensures
            slots@ == self.right_slots(),
    {
        &self.right_index
    }

    /// The buckets of the store, by slot number.
    pub fn data(&self) -> (buckets: &Vec<Bucket<T, U>>)
        ensures
            buckets@ == self.buckets(),
    {
        &self.data
    }

    /// The two directions of the map agree: `left` is bound to `right`
    /// exactly when `right` is bound to `left`.
    pub proof fn lemma_bijection(&self, left: T, right: U)
        requires
            self.wf(),
        ensures
            self@.contains_pair(left, right) <==> self.inverse().contains_pair(right, left),
    {
        lemma_pairing_inverse(self.left_values_seq(), self.right_values_seq(), left, right);
    }

    /// The bindings of the map are its pairs: each pair of the store is a
    /// binding, and each binding is a pair of the store.
    pub proof fn lemma_entries_are_bindings(&self, left: T, right: U)
        requires
            self.wf(),
        ensures
            self@.contains_pair(left, right) <==> self.entries().contains((left, right)),
    {
        if self@.contains_pair(left, right) {
            let i = lemma_pairing_key(self.left_values_seq(), self.right_values_seq(), left);
            assert(self.entries()[i] == (left, right));
        }
        if self.entries().contains((left, right)) {
            let i = choose|i: int|
                0 <= i < self.entries().len() && self.entries()[i] == (left, right);
            lemma_pairing_at(self.left_values_seq(), self.right_values_seq(), i);
        }
    }

    /// Each index has as many occupied slots as the store has pairs.
    pub proof fn lemma_index_density(&self)
        requires
            self.wf(),
        ensures
            occupied_slots(self.left_slots()).len() == self.entries().len(),
            occupied_slots(self.right_slots()).len() == self.entries().len(),
    {
        lemma_occupied_count(self.left_slots(), self.left_homes());
        lemma_occupied_count(self.right_slots(), self.right_homes());
    }

    /// The map has as many bindings, in either direction, as the store has
    /// pairs.
    pub proof fn lemma_density(&self)
        requires
            self.wf(),
        ensures
            self@.dom().finite(),
            self.inverse().dom().finite(),
            self@.len() == self.entries().len(),
            self.inverse().len() == self.entries().len(),
    {
        lemma_pairing_len(self.left_values_seq(), self.right_values_seq());
        lemma_pairing_len(self.right_values_seq(), self.left_values_seq());
    }
}

impl<T: Hash + Eq, U: Hash + Eq> Default for BiMap<T, U> {
    fn default() -> (map: Self)
        ensures
            BiMap::<T, U>::hash_model() ==> map.wf(),
            map@ == Map::<T, U>::empty(),
            map.inverse() == Map::<U, T>::empty(),
            map.buckets() == Seq::<Bucket<T, U>>::empty(),
            map.spec_capacity() == loaded_capacity(DEFAULT_CAPACITY as int),
            map.indices_empty(),
    {
        Self::new()
    }
}

/// Calls `Vec::shrink_to_fit`, which gives back memory that the vector does
/// not use. Trusted: the elements stay as they were.
#[verifier::external_body]
fn shrink_store<E>(store: &mut Vec<E>)
    ensures
        final(store)@ == old(store)@,
{
    store.shrink_to_fit();
}

} // verus!
