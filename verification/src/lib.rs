//! A fixed-capacity, separately chained hash table from text keys to values.
//!
//! `table` holds the table and its operations, `hasher` the hash function,
//! `text` the comparison of keys, `model` the mathematical model that the
//! contracts speak of, `laws` what holds of that model, and `lemmas` the
//! proofs that both rest on.

pub mod hasher;
pub mod laws;
pub mod lemmas;
pub mod model;
pub mod table;
pub mod text;

pub use hasher::default_hash;
pub use table::{HashItem, HashS2T, DEFAULT_HASH2ST_SIZE};
