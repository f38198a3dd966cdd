//! The buckets of the store, and the two sides from which one is looked at.

use vstd::prelude::*;

verus! {

/// One stored pair.
#[derive(Clone, Debug, PartialEq, Eq)]
pub struct Bucket<T, U> {
    pub left: T,
    pub right: U,
}

/// A side of the map: it tells which value of a bucket is the key under
/// which an index finds the bucket.
pub trait Side<T, U, E> {
    /// The key of `bucket` on this side.
    spec fn key_of(bucket: Bucket<T, U>) -> E;

    /// The key of `bucket` on this side.
    fn key(bucket: &Bucket<T, U>) -> (key: &E)
        ensures
            *key == Self::key_of(*bucket),
    ;
}

/// The side on which a bucket is found by its left value.
pub struct LeftSide;

/// The side on which a bucket is found by its right value.
pub struct RightSide;

impl<T, U> Side<T, U, T> for LeftSide {
    open spec fn key_of(bucket: Bucket<T, U>) -> T {
        bucket.left
    }

    fn key(bucket: &Bucket<T, U>) -> (key: &T) {
        &bucket.left
    }
}

impl<T, U> Side<T, U, U> for RightSide {
    open spec fn key_of(bucket: Bucket<T, U>) -> U {
        bucket.right
    }

    fn key(bucket: &Bucket<T, U>) -> (key: &U) {
        &bucket.right
    }
}

/// The keys of `buckets` on the side `S`, by slot number.
pub open spec fn keys_of<T, U, E, S: Side<T, U, E>>(buckets: Seq<Bucket<T, U>>) -> Seq<E> {
    Seq::new(buckets.len(), |i: int| S::key_of(buckets[i]))
}

} // verus!
