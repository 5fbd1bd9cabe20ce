//! Metadata recorded to survive restarts during a state snapshot sync: the
//! progress marker and the byte codecs under which it is stored.
//!
//! The durable key/value store itself is a collaborator outside this
//! library; these codecs and the decisions over fetched progress are the
//! logic it runs on.

#![verifier::loop_isolation(false)]

use vstd::prelude::*;

use crate::bytes::lemma_u64_le_round_trip;
use crate::bytes::push_u64_le;
use crate::bytes::read_u64_le;
use crate::bytes::u64_from_le_bytes;
use crate::bytes::u64_le_bytes;

verus! {

/// Why a stored metadata record could not be read back.
#[derive(Clone, Copy, PartialEq, Eq, Structural, Debug)]
pub enum MetadataError {
    /// The stored bytes have the wrong length.
    WrongLength,
    /// The leading tag byte names no known record kind.
    UnknownTag,
    /// The completion flag byte is neither zero nor one.
    BadFlag,
    /// No snapshot sync progress was recorded for the asked version.
    ProgressMissing,
}

/// The progress of a state snapshot sync.
#[derive(Clone, Copy, PartialEq, Eq, Structural, Debug)]
pub struct StateSnapshotSyncProgress {
    pub last_persisted_state_value_index: u64,
    pub snapshot_sync_completed: bool,
}

/// A metadata key: which record is asked for.
#[derive(Clone, Copy, PartialEq, Eq, Structural, Debug)]
pub enum MetadataKey {
    /// The state snapshot sync executed at the given version.
    StateSnapshotSync(u64),
}

/// A metadata value: one stored record.
#[derive(Clone, Copy, PartialEq, Eq, Structural, Debug)]
pub enum MetadataValue {
    /// A state snapshot sync progress marker.
    StateSnapshotSync(StateSnapshotSyncProgress),
}

/// The stored bytes of a metadata key: a tag byte, then the version.
pub open spec fn spec_encode_key(k: MetadataKey) -> Seq<u8> {
    match k {
        MetadataKey::StateSnapshotSync(version) => seq![0u8] + u64_le_bytes(version),
    }
}

/// The stored bytes of a metadata value: a tag byte, the index, the flag.
pub open spec fn spec_encode_value(v: MetadataValue) -> Seq<u8> {
    match v {
        MetadataValue::StateSnapshotSync(p) => seq![0u8] + u64_le_bytes(
            p.last_persisted_state_value_index,
        ) + seq![
            if p.snapshot_sync_completed {
                1u8
            } else {
                0u8
            },
        ],
    }
}

/// Fails unless the stored bytes have exactly the expected length.
pub fn ensure_slice_len_eq(data: &Vec<u8>, len: usize) -> (r: Result<(), MetadataError>)
    ensures
        r is Ok <==> data@.len() == len,
        r is Err ==> r == Result::<(), MetadataError>::Err(MetadataError::WrongLength),
{
    if data.len() == len {
        Ok(())
    } else {
        Err(MetadataError::WrongLength)
    }
}

impl MetadataKey {
    /// The bytes under which this key is stored.
    pub fn encode_key(&self) -> (r: Vec<u8>)
        ensures
            r@ == spec_encode_key(*self),
    {
        let MetadataKey::StateSnapshotSync(version) = *self;
        let mut out: Vec<u8> = Vec::new();
        out.push(0u8);
        push_u64_le(&mut out, version);
        proof {
            assert(out@ =~= spec_encode_key(*self));
        }
        out
    }

    /// The key stored under the given bytes: a tag byte, then the version.
    pub fn decode_key(data: &Vec<u8>) -> (r: Result<MetadataKey, MetadataError>)
        ensures
            match r {
                Ok(k) => data@.len() == 9 && data@[0] == 0u8 && k
                    == MetadataKey::StateSnapshotSync(u64_from_le_bytes(data@.subrange(1, 9))),
                Err(e) => {
                    &&& !(data@.len() == 9 && data@[0] == 0u8)
                    &&& e == (if data@.len() != 9 {
                        MetadataError::WrongLength
                    } else {
                        MetadataError::UnknownTag
                    })
                },
            },
    {
        match ensure_slice_len_eq(data, 9) {
            Ok(()) => (),
            Err(e) => {
                return Err(e);
            },
        }
        if data[0] != 0u8 {
            return Err(MetadataError::UnknownTag);
        }
        let version = read_u64_le(data, 1);
        Ok(MetadataKey::StateSnapshotSync(version))
    }
}

impl MetadataValue {
    /// The bytes under which this value is stored.
    pub fn encode_value(&self) -> (r: Vec<u8>)
        ensures
            r@ == spec_encode_value(*self),
    {
        let MetadataValue::StateSnapshotSync(p) = *self;
        let mut out: Vec<u8> = Vec::new();
        out.push(0u8);
        push_u64_le(&mut out, p.last_persisted_state_value_index);
        if p.snapshot_sync_completed {
            out.push(1u8);
        } else {
            out.push(0u8);
        }
        proof {
            assert(out@ =~= spec_encode_value(*self));
        }
        out
    }

    /// The value stored under the given bytes: a tag byte, the index, then
    /// the completion flag.
    pub fn decode_value(data: &Vec<u8>) -> (r: Result<MetadataValue, MetadataError>)
        ensures
            match r {
                Ok(v) => data@.len() == 10 && data@[0] == 0u8 && (data@[9] == 0u8 || data@[9]
                    == 1u8) && v == MetadataValue::StateSnapshotSync(
                    StateSnapshotSyncProgress {
                        last_persisted_state_value_index: u64_from_le_bytes(
                            data@.subrange(1, 9),
                        ),
                        snapshot_sync_completed: data@[9] == 1u8,
                    },
                ),
                Err(e) => {
                    &&& !(data@.len() == 10 && data@[0] == 0u8 && (data@[9] == 0u8 || data@[9]
                        == 1u8))
                    &&& e == (if data@.len() != 10 {
                        MetadataError::WrongLength
                    } else if data@[0] != 0u8 {
                        MetadataError::UnknownTag
                    } else {
                        MetadataError::BadFlag
                    })
                },
            },
    {
        match ensure_slice_len_eq(data, 10) {
            Ok(()) => (),
            Err(e) => {
                return Err(e);
            },
        }
        if data[0] != 0u8 {
            return Err(MetadataError::UnknownTag);
        }
        let index = read_u64_le(data, 1);
        let flag = data[9];
        if flag != 0u8 && flag != 1u8 {
            return Err(MetadataError::BadFlag);
        }
        Ok(
            MetadataValue::StateSnapshotSync(
                StateSnapshotSyncProgress {
                    last_persisted_state_value_index: index,
                    snapshot_sync_completed: flag == 1u8,
                },
            ),
        )
    }
}

/// Decoding the stored bytes of a key gives the key back.
pub proof fn lemma_key_round_trip(k: MetadataKey)
    ensures
        spec_encode_key(k).len() == 9,
        spec_encode_key(k)[0] == 0u8,
        u64_from_le_bytes(spec_encode_key(k).subrange(1, 9)) == k->0,
{
    let MetadataKey::StateSnapshotSync(version) = k;
    assert(spec_encode_key(k).subrange(1, 9) =~= u64_le_bytes(version));
    lemma_u64_le_round_trip(version);
}

/// Whether a snapshot sync recorded as the given progress, if any, finished.
pub fn snapshot_sync_completed_of(progress: Option<StateSnapshotSyncProgress>) -> (r: bool)
    ensures
        r == match progress {
            Some(p) => p.snapshot_sync_completed,
            None => false,
        },
{
    match progress {
        Some(p) => p.snapshot_sync_completed,
        None => false,
    }
}

/// The last persisted state value index of the recorded progress; asking
/// with no recorded progress is an error.
pub fn last_persisted_index_of(progress: Option<StateSnapshotSyncProgress>) -> (r: Result<
    u64,
    MetadataError,
>)
    ensures
        match r {
            Ok(i) => progress is Some && i == progress->0.last_persisted_state_value_index,
            Err(e) => progress is None && e == MetadataError::ProgressMissing,
        },
{
    match progress {
        Some(p) => Ok(p.last_persisted_state_value_index),
        None => Err(MetadataError::ProgressMissing),
    }
}

} // verus!
