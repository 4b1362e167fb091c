//! An open-addressing hash table with linear probing, tombstone deletion,
//! fingerprint-filtered lookup and power-of-two capacities.
pub mod key;
pub mod laws;
pub mod slot;
pub mod vector_hash;

pub use crate::key::TableKey;
pub use crate::vector_hash::{VectorHash, MAX_ENTRIES};
