//! Epoch/reconfiguration extraction: reads the two well-known configuration
//! resources out of the final read cache to build the next epoch's view.

#![verifier::loop_isolation(false)]

use vstd::prelude::*;

use crate::bytes::read_u64_le;
use crate::bytes::u64_from_le_bytes;
use crate::error::Error;
use crate::kv::copy_bytes;
use crate::kv::KvMap;

verus! {

/// The well-known address of the validator-set resource.
pub const VALIDATOR_SET_KEY: u64 = 1;

/// The well-known address of the configuration resource.
pub const CONFIGURATION_KEY: u64 = 2;

/// The next epoch's view: the epoch number read off the configuration
/// resource, and the verifier payload taken from the validator-set resource.
pub struct EpochState {
    pub epoch: u64,
    pub verifier: Vec<u8>,
}

/// Both well-known resources are present and the configuration resource is
/// long enough to hold an epoch number.
pub open spec fn epoch_ok(cache: Map<u64, Seq<u8>>) -> bool {
    cache.contains_key(VALIDATOR_SET_KEY) && cache.contains_key(CONFIGURATION_KEY)
        && cache[CONFIGURATION_KEY].len() >= 8
}

/// The epoch number held by a configuration resource.
pub open spec fn epoch_of(cfg: Seq<u8>) -> u64 {
    u64_from_le_bytes(cfg.subrange(0, 8))
}

/// Which failure an incomplete final cache produces.
pub open spec fn epoch_err(cache: Map<u64, Seq<u8>>) -> Error {
    if !cache.contains_key(VALIDATOR_SET_KEY) {
        Error::ValidatorSetMissing
    } else if !cache.contains_key(CONFIGURATION_KEY) {
        Error::ConfigurationMissing
    } else {
        Error::ConfigurationMalformed
    }
}

/// Reads the validator-set and configuration resources out of the final read
/// cache; both must be present, as they are written whenever a
/// reconfiguration executes correctly.
pub fn parse_validator_set(state_cache: &KvMap) -> (r: Result<EpochState, Error>)
    requires
        state_cache.wf(),
    ensures
        match r {
            Ok(e) => epoch_ok(state_cache.map_view()) && e.epoch == epoch_of(
                state_cache.map_view()[CONFIGURATION_KEY],
            ) && e.verifier@ == state_cache.map_view()[VALIDATOR_SET_KEY],
            Err(e) => !epoch_ok(state_cache.map_view()) && e == epoch_err(state_cache.map_view()),
        },
{
    let validator_set = match state_cache.get_cloned(VALIDATOR_SET_KEY) {
        Some(v) => v,
        None => {
            return Err(Error::ValidatorSetMissing);
        },
    };
    let configuration = match state_cache.get_cloned(CONFIGURATION_KEY) {
        Some(v) => v,
        None => {
            return Err(Error::ConfigurationMissing);
        },
    };
    if configuration.len() < 8 {
        return Err(Error::ConfigurationMalformed);
    }
    let epoch = read_u64_le(&configuration, 0);
    Ok(EpochState { epoch, verifier: validator_set })
}

/// A separate epoch state with the same contents.
pub fn duplicate_epoch_state(e: &EpochState) -> (r: EpochState)
    ensures
        r.epoch == e.epoch,
        r.verifier@ == e.verifier@,
{
    EpochState { epoch: e.epoch, verifier: copy_bytes(&e.verifier) }
}

} // verus!
