use state_delta::calculator::InMemoryState;
use state_delta::calculator::InMemoryStateCalculator;
use state_delta::calculator::ParsedTransactionOutput;
use state_delta::calculator::StateCache;
use state_delta::error::Error;
use state_delta::kv::KeySet;
use state_delta::kv::KvMap;
use state_delta::model::Transaction;
use state_delta::tree::TreeSnapshot;

fn user_txn(writes: Vec<(u64, Vec<u8>)>) -> (Transaction, ParsedTransactionOutput) {
    (
        Transaction::UserTransaction,
        ParsedTransactionOutput { write_set: writes, is_reconfig: false },
    )
}

fn reconfig_txn(writes: Vec<(u64, Vec<u8>)>) -> (Transaction, ParsedTransactionOutput) {
    (
        Transaction::UserTransaction,
        ParsedTransactionOutput { write_set: writes, is_reconfig: true },
    )
}

fn checkpoint_marker() -> (Transaction, ParsedTransactionOutput) {
    (
        Transaction::StateCheckpoint,
        ParsedTransactionOutput { write_set: vec![], is_reconfig: false },
    )
}

fn empty_cache() -> StateCache {
    StateCache {
        frozen_base: TreeSnapshot::new(),
        state_cache: KvMap::new(),
        proofs: KeySet::new(),
    }
}

#[test]
fn chunk_with_checkpoint_marker_emits_full_delta() {
    let base = InMemoryState::new_empty();
    let to_keep = vec![
        user_txn(vec![(10, vec![1])]),
        user_txn(vec![(20, vec![2])]),
        checkpoint_marker(),
    ];
    let calc = InMemoryStateCalculator::new(&base, empty_cache(), 0);
    let (deltas, hashes, roots, state, epoch) =
        calc.calculate_for_transaction_chunk(&to_keep, false).unwrap();
    assert_eq!(deltas.len(), 3);
    assert_eq!(deltas[0].entries, Vec::<(u64, Vec<u8>)>::new());
    assert_eq!(deltas[1].entries, Vec::<(u64, Vec<u8>)>::new());
    assert_eq!(deltas[2].entries, vec![(10u64, vec![1u8]), (20u64, vec![2u8])]);
    assert_eq!(hashes[0].entries.len(), 0);
    assert_eq!(hashes[1].entries.len(), 0);
    assert_eq!(hashes[2].entries.len(), 2);
    assert_eq!(roots[0], None);
    assert_eq!(roots[1], None);
    let single_batch = TreeSnapshot::new().batch_update(&vec![(10, vec![1]), (20, vec![2])]);
    assert_eq!(roots[2].clone().unwrap(), single_batch.root_hash());
    assert_eq!(state.checkpoint_version, Some(2));
    assert_eq!(state.updated_since_checkpoint.len(), 0);
    assert!(epoch.is_none());
}

#[test]
fn straddling_key_is_carried_into_the_checkpoint_delta() {
    let current = TreeSnapshot::new().batch_update(&vec![(10, vec![1])]);
    let mut updated = KeySet::new();
    updated.insert(10);
    let base = InMemoryState::new(TreeSnapshot::new(), None, current, updated);
    let to_keep = vec![user_txn(vec![(20, vec![2])]), checkpoint_marker()];
    let calc = InMemoryStateCalculator::new(&base, empty_cache(), 1);
    let (deltas, _hashes, roots, state, _epoch) =
        calc.calculate_for_transaction_chunk(&to_keep, false).unwrap();
    assert_eq!(deltas[0].entries, Vec::<(u64, Vec<u8>)>::new());
    assert_eq!(deltas[1].entries, vec![(20u64, vec![2u8]), (10u64, vec![1u8])]);
    assert!(roots[1].is_some());
    assert_eq!(state.checkpoint_version, Some(2));
    assert_eq!(state.updated_since_checkpoint.len(), 0);
}

#[test]
fn reconfiguration_checkpoints_without_epoch_flag() {
    let base = InMemoryState::new_empty();
    let to_keep = vec![reconfig_txn(vec![(10, vec![7])])];
    let calc = InMemoryStateCalculator::new(&base, empty_cache(), 0);
    let (deltas, _hashes, roots, state, epoch) =
        calc.calculate_for_transaction_chunk(&to_keep, false).unwrap();
    assert_eq!(deltas[0].entries, vec![(10u64, vec![7u8])]);
    assert!(roots[0].is_some());
    assert_eq!(state.checkpoint_version, Some(0));
    assert!(epoch.is_none());
}

#[test]
fn reconfiguration_with_epoch_flag_returns_epoch_state() {
    let base = InMemoryState::new_empty();
    let validator_set = vec![9u8, 9u8, 9u8];
    let configuration = vec![5u8, 0, 0, 0, 0, 0, 0, 0, 42u8];
    let to_keep = vec![reconfig_txn(vec![
        (1, validator_set.clone()),
        (2, configuration),
    ])];
    let calc = InMemoryStateCalculator::new(&base, empty_cache(), 0);
    let (_deltas, _hashes, _roots, _state, epoch) =
        calc.calculate_for_transaction_chunk(&to_keep, true).unwrap();
    let epoch = epoch.unwrap();
    assert_eq!(epoch.epoch, 5);
    assert_eq!(epoch.verifier, validator_set);
}

#[test]
fn missing_validator_set_fails_the_chunk() {
    let base = InMemoryState::new_empty();
    let to_keep = vec![reconfig_txn(vec![(10, vec![7])])];
    let calc = InMemoryStateCalculator::new(&base, empty_cache(), 0);
    let r = calc.calculate_for_transaction_chunk(&to_keep, true);
    assert_eq!(r.err().unwrap(), Error::ValidatorSetMissing);
}

#[test]
fn missing_configuration_fails_the_chunk() {
    let base = InMemoryState::new_empty();
    let to_keep = vec![reconfig_txn(vec![(1, vec![9])])];
    let calc = InMemoryStateCalculator::new(&base, empty_cache(), 0);
    let r = calc.calculate_for_transaction_chunk(&to_keep, true);
    assert_eq!(r.err().unwrap(), Error::ConfigurationMissing);
}

#[test]
fn short_configuration_fails_the_chunk() {
    let base = InMemoryState::new_empty();
    let to_keep = vec![reconfig_txn(vec![(1, vec![9]), (2, vec![1, 2])])];
    let calc = InMemoryStateCalculator::new(&base, empty_cache(), 0);
    let r = calc.calculate_for_transaction_chunk(&to_keep, true);
    assert_eq!(r.err().unwrap(), Error::ConfigurationMalformed);
}

#[test]
fn repeated_runs_yield_identical_outputs() {
    let chunk = || {
        vec![
            user_txn(vec![(10, vec![1]), (30, vec![3])]),
            checkpoint_marker(),
            user_txn(vec![(20, vec![2])]),
        ]
    };
    let run = || {
        let base = InMemoryState::new_empty();
        let calc = InMemoryStateCalculator::new(&base, empty_cache(), 0);
        calc.calculate_for_transaction_chunk(&chunk(), false).unwrap()
    };
    let (d1, h1, r1, s1, _) = run();
    let (d2, h2, r2, s2, _) = run();
    for i in 0..d1.len() {
        assert_eq!(d1[i].entries, d2[i].entries);
        assert_eq!(h1[i].entries, h2[i].entries);
    }
    assert_eq!(r1, r2);
    assert_eq!(s1.checkpoint_version, s2.checkpoint_version);
    assert_eq!(s1.current.entries, s2.current.entries);
}

#[test]
fn block_metadata_transaction_is_delta_silent() {
    let base = InMemoryState::new_empty();
    let to_keep = vec![(
        Transaction::BlockMetadata,
        ParsedTransactionOutput { write_set: vec![(10, vec![1])], is_reconfig: false },
    )];
    let calc = InMemoryStateCalculator::new(&base, empty_cache(), 0);
    let (deltas, hashes, roots, state, _epoch) =
        calc.calculate_for_transaction_chunk(&to_keep, false).unwrap();
    assert_eq!(deltas[0].entries, Vec::<(u64, Vec<u8>)>::new());
    assert_eq!(hashes[0].entries.len(), 0);
    assert_eq!(roots[0], None);
    assert_eq!(state.checkpoint_version, None);
    assert_eq!(state.updated_since_checkpoint.len(), 1);
}

#[test]
fn genesis_transaction_forces_a_checkpoint() {
    let base = InMemoryState::new_empty();
    let to_keep = vec![(
        Transaction::GenesisTransaction,
        ParsedTransactionOutput { write_set: vec![(10, vec![1])], is_reconfig: false },
    )];
    let calc = InMemoryStateCalculator::new(&base, empty_cache(), 0);
    let (deltas, _hashes, roots, state, _epoch) =
        calc.calculate_for_transaction_chunk(&to_keep, false).unwrap();
    assert_eq!(deltas[0].entries, vec![(10u64, vec![1u8])]);
    assert!(roots[0].is_some());
    assert_eq!(state.checkpoint_version, Some(0));
}

#[test]
fn later_write_to_same_key_wins() {
    let base = InMemoryState::new_empty();
    let to_keep = vec![
        user_txn(vec![(10, vec![1])]),
        user_txn(vec![(10, vec![2])]),
        checkpoint_marker(),
    ];
    let calc = InMemoryStateCalculator::new(&base, empty_cache(), 0);
    let (deltas, _hashes, roots, _state, _epoch) =
        calc.calculate_for_transaction_chunk(&to_keep, false).unwrap();
    assert_eq!(deltas[2].entries, vec![(10u64, vec![2u8])]);
    let single_batch = TreeSnapshot::new().batch_update(&vec![(10, vec![2])]);
    assert_eq!(roots[2].clone().unwrap(), single_batch.root_hash());
}

#[test]
fn incremental_checkpoints_match_one_shot_recompute() {
    let base = InMemoryState::new_empty();
    let to_keep = vec![
        user_txn(vec![(10, vec![1])]),
        checkpoint_marker(),
        user_txn(vec![(20, vec![2])]),
        checkpoint_marker(),
    ];
    let calc = InMemoryStateCalculator::new(&base, empty_cache(), 0);
    let (_deltas, _hashes, roots, state, _epoch) =
        calc.calculate_for_transaction_chunk(&to_keep, false).unwrap();
    let one_shot = TreeSnapshot::new().batch_update(&vec![(10, vec![1]), (20, vec![2])]);
    assert_eq!(roots[3].clone().unwrap(), one_shot.root_hash());
    assert_eq!(state.current.entries, one_shot.entries);
}
