//! Failure conditions of a chunk computation. Every one of them is fatal to
//! the chunk: no partial result state is ever returned.

use vstd::prelude::*;

verus! {

/// Why a chunk computation was aborted.
#[derive(Clone, Copy, PartialEq, Eq, Structural, Debug)]
pub enum Error {
    /// A key touched after the latest snapshot has no value in the read cache.
    MissingStateValue,
    /// A key changed before the latest snapshot is absent from the snapshot
    /// built at a checkpoint.
    PendingStateMissing,
    /// A reconfiguration was flagged but the validator-set resource is absent
    /// from the final read cache.
    ValidatorSetMissing,
    /// A reconfiguration was flagged but the configuration resource is absent
    /// from the final read cache.
    ConfigurationMissing,
    /// The configuration resource is too short to hold an epoch number.
    ConfigurationMalformed,
}

} // verus!
