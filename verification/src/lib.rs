//! Incremental state-delta calculator for a ledger execution layer.
//!
//! Given a base authenticated key/value snapshot and an ordered chunk of
//! executed transactions with their write-sets, the calculator produces, per
//! transaction, the set of changed key/value pairs, the new tree-node digests,
//! and (when a logical checkpoint occurs) the new root digest, while evolving
//! a single in-memory representation that becomes the base of the next chunk.

pub mod api_tags;
pub mod bytes;
pub mod calculator;
pub mod epoch;
pub mod error;
pub mod hash;
pub mod kv;
pub mod laws;
pub mod metadata;
pub mod model;
pub mod tree;
