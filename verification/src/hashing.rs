//! Hashing of keys into index positions.

use std::collections::hash_map::RandomState;
use std::hash::{BuildHasher, Hash};
use vstd::prelude::*;
use vstd::std_specs::cmp::PartialEqSpec;
use vstd::std_specs::hash::{builds_valid_hashers, obeys_key_model};

verus! {

/// The digest that the hash builder `hasher` gives to `element`.
///
/// Nothing is known of it but that it is a function of the builder and the
/// element: the same builder gives the same element the same digest.
pub closed spec fn digest<E, G>(hasher: G, element: E) -> u64 {
    (vstd::pervasive::arbitrary::<spec_fn(G, E) -> u64>())(hasher, element)
}

/// Whether keys of type `E` hashed by builders of type `G` behave as a hash
/// table needs: hashing is deterministic, and `==` holds of two keys exactly
/// when they are the same value.
pub open spec fn obeys_hash_model<E: PartialEq, G>() -> bool {
    &&& obeys_key_model::<E>()
    &&& builds_valid_hashers::<G>()
    &&& E::obeys_eq_spec()
    &&& forall|a: E, b: E| #[trigger] a.eq_spec(&b) <==> a == b
}

/// The position at which `element` would sit in an index of `capacity` slots
/// if nothing else were in its way.
pub open spec fn ideal_index<E, G>(hasher: G, element: E, capacity: usize) -> int
    recommends
        capacity > 0,
{
    ((digest(hasher, element) as usize) % capacity) as int
}

/// Calls `BuildHasher::hash_one`. Trusted: for a key type and a builder type
/// that are deterministic (the first two parts of [`obeys_hash_model`]), the
/// value returned is the digest of the element under this builder, so two
/// calls with the same builder and element agree.
#[verifier::external_body]
fn hash_one<E: Hash, G: BuildHasher>(hasher: &G, element: &E) -> (h: u64)
    ensures
        obeys_key_model::<E>() && builds_valid_hashers::<G>() ==> h == digest(*hasher, *element),
{
    hasher.hash_one(element)
}

/// Calls `RandomState::new`, which seeds a hash builder with random keys.
/// Nothing is claimed of the builder that comes back.
#[verifier::external_body]
pub(crate) fn random_state() -> RandomState {
    RandomState::new()
}

/// Hashes `element` and maps the digest to a position below `capacity`.
pub fn hash_to_index<E: Hash, G: BuildHasher>(hasher: &G, element: &E, capacity: usize) -> (index:
    usize)
    requires
        capacity > 0,
    ensures
        index < capacity,
        obeys_key_model::<E>() && builds_valid_hashers::<G>() ==> index == ideal_index(
            *hasher,
            *element,
            capacity,
        ),
{
    let h = hash_one(hasher, element);
    (#[verifier::truncate] (h as usize)) % capacity
}

/// Whether two keys are equal, by the key type's own `==`.
pub fn keys_equal<E: PartialEq>(a: &E, b: &E) -> (same: bool)
    ensures
        E::obeys_eq_spec() ==> same == a.eq_spec(b),
{
    *a == *b
}

} // verus!
