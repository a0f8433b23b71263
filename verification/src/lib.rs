//! An in-memory key-value container backed by a single flat slot array,
//! using open addressing with quadratic probing for collision resolution.
//!
//! The container supports insertion (including in-place update of an
//! existing key), lookup, removal, and capacity growth.  Removal leaves a
//! tombstone in the slot so that probe chains of other keys stay intact.

pub mod hashing;
pub mod laws;
pub mod table;
