//! A bijective map: every left value is bound to exactly one right value and
//! every right value to exactly one left value.
//!
//! The pairs live in a dense bucket store. Two open-addressing index arrays,
//! one per side and both probed with Robin Hood ordering, point into it.
//!
//! - [`bimap`] holds the map and its operations.
//! - [`bucket`] holds the buckets and the two sides from which they are keyed.
//! - [`index`] says what makes one index consistent and how it changes.
//! - [`probe`] holds the routines that search and maintain one index.
//! - [`hashing`] maps keys to index positions.
//! - [`load`] holds the load policy.
//! - [`pairing`] is the map that a sequence of pairs stands for.

pub mod bimap;
pub mod bucket;
pub mod hashing;
pub mod index;
pub mod load;
pub mod pairing;
pub mod probe;

pub use bimap::BiMap;
pub use load::DEFAULT_CAPACITY;
pub use index::EMPTY_SLOT;
