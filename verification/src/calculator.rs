//! The state-delta calculator: consumes a chunk of executed transactions and
//! their write sets, decides when pending writes fold into the authenticated
//! tree, and hands back the per-transaction deltas, node digests and root
//! digests together with the evolved result state.
//!
//! A calculator is built fresh per chunk from the previous result state, a
//! preloaded read cache and the version of the first transaction; it consumes
//! itself when it produces the final result.

#![verifier::loop_isolation(false)]

use vstd::prelude::*;

use crate::epoch::epoch_err;
use crate::epoch::epoch_of;
use crate::epoch::epoch_ok;
use crate::epoch::parse_validator_set;
use crate::epoch::EpochState;
use crate::epoch::CONFIGURATION_KEY;
use crate::epoch::VALIDATOR_SET_KEY;
use crate::error::Error;
use crate::kv::copy_bytes;
use crate::kv::entries_view;
use crate::kv::entry_keys;
use crate::kv::lemma_merge_keys;
use crate::kv::par_lookup;
use crate::kv::merge_keys;
use crate::kv::opt_bytes_view;
use crate::kv::spec_get;
use crate::kv::to_map;
use crate::kv::unique_keys;
use crate::kv::KeySet;
use crate::kv::KvMap;
use crate::model::all_in;
use crate::model::gather;
use crate::model::lemma_apply_output_wf;
use crate::model::lemma_checkpoint_wf;
use crate::model::lemma_gather;
use crate::model::lemma_straddle_keys;
use crate::model::lemma_updates_keys;
use crate::model::lemma_writes_over_frame;
use crate::model::model_wf;
use crate::model::spec_add_delta;
use crate::model::spec_add_hashes;
use crate::model::spec_add_model;
use crate::model::spec_add_root;
use crate::model::spec_after_checkpoint;
use crate::model::spec_apply_output;
use crate::model::spec_chunk;
use crate::model::spec_delta;
use crate::model::spec_finish;
use crate::model::spec_new_tree;
use crate::model::spec_node_hashes;
use crate::model::spec_root;
use crate::model::spec_updates;
use crate::model::straddle_keys;
use crate::model::CalcModel;
use crate::model::StateModel;
use crate::model::Transaction;
use crate::tree::strictly_sorted;
use crate::tree::writes_over;
use crate::tree::TreeSnapshot;

verus! {

/// A transaction's parsed output, as this engine reads it: the ordered
/// key/value write set, and whether the transaction is a reconfiguration.
pub struct ParsedTransactionOutput {
    pub write_set: Vec<(u64, Vec<u8>)>,
    pub is_reconfig: bool,
}

impl ParsedTransactionOutput {
    /// The write set, with payloads as sequences.
    pub open spec fn ws_view(&self) -> Seq<(u64, Seq<u8>)> {
        entries_view(self.write_set@)
    }
}

/// The result state that persists across chunks: the checkpoint snapshot and
/// its version, the latest snapshot, and the keys changed since the
/// checkpoint.
pub struct InMemoryState {
    pub checkpoint: TreeSnapshot,
    pub checkpoint_version: Option<u64>,
    pub current: TreeSnapshot,
    pub updated_since_checkpoint: KeySet,
}

impl View for InMemoryState {
    type V = StateModel;

    open spec fn view(&self) -> StateModel {
        StateModel {
            checkpoint: self.checkpoint@,
            checkpoint_version: self.checkpoint_version,
            current: self.current@,
            updated_since_checkpoint: self.updated_since_checkpoint@,
        }
    }
}

impl InMemoryState {
    /// The snapshots are canonical, the changed-key set holds no key twice,
    /// every changed key lives in the latest snapshot, and the latest
    /// snapshot is the checkpoint overlaid with exactly the changed keys.
    pub open spec fn wf(&self) -> bool {
        &&& strictly_sorted(self@.checkpoint)
        &&& strictly_sorted(self@.current)
        &&& unique_keys(self@.updated_since_checkpoint)
        &&& forall|i: int|
            0 <= i < self@.updated_since_checkpoint.len() ==> to_map(self@.current).contains_key(
                #[trigger] self@.updated_since_checkpoint[i],
            )
        &&& forall|k: u64|
            !self@.updated_since_checkpoint.contains(k) ==> #[trigger] spec_get(
                to_map(self@.current),
                k,
            ) == spec_get(to_map(self@.checkpoint), k)
    }

    /// A result state from its four parts.
    pub fn new(
        checkpoint: TreeSnapshot,
        checkpoint_version: Option<u64>,
        current: TreeSnapshot,
        updated_since_checkpoint: KeySet,
    ) -> (r: Self)
        ensures
            r@ == (StateModel {
                checkpoint: checkpoint@,
                checkpoint_version,
                current: current@,
                updated_since_checkpoint: updated_since_checkpoint@,
            }),
    {
        InMemoryState { checkpoint, checkpoint_version, current, updated_since_checkpoint }
    }

    /// The state before anything was ever executed: empty snapshots, no
    /// checkpoint version, nothing changed.
    pub fn new_empty() -> (r: Self)
        ensures
            r@.checkpoint.len() == 0,
            r@.current.len() == 0,
            r@.checkpoint_version is None,
            r@.updated_since_checkpoint.len() == 0,
            r.wf(),
    {
        InMemoryState {
            checkpoint: TreeSnapshot::new(),
            checkpoint_version: None,
            current: TreeSnapshot::new(),
            updated_since_checkpoint: KeySet::new(),
        }
    }
}

/// The read cache a caller preloads before a chunk: the frozen base snapshot
/// to keep alive, the flat key/value cache, and the keys for which
/// authentication proofs were fetched.
pub struct StateCache {
    pub frozen_base: TreeSnapshot,
    pub state_cache: KvMap,
    pub proofs: KeySet,
}

/// The calculator's working state for one chunk.
pub struct InMemoryStateCalculator {
    /// Keeps the base snapshot alive while proofs fetched against it are in
    /// use elsewhere; never read by the calculator itself.
    pub frozen_base: TreeSnapshot,
    pub state_cache: KvMap,
    pub proofs: KeySet,
    pub checkpoint: TreeSnapshot,
    pub checkpoint_version: Option<u64>,
    pub latest: TreeSnapshot,
    pub next_version: u64,
    pub updated_between_checkpoint_and_latest: KeySet,
    pub updated_after_latest: KeySet,
}

/// One transaction as the model sees it.
pub open spec fn txns_view(v: Seq<(Transaction, ParsedTransactionOutput)>) -> Seq<
    (Transaction, Seq<(u64, Seq<u8>)>, bool),
> {
    Seq::new(v.len(), |i: int| (v[i].0, entries_view(v[i].1.write_set@), v[i].1.is_reconfig))
}

/// The views of a sequence of flat maps.
pub open spec fn kvmaps_view(v: Seq<KvMap>) -> Seq<Seq<(u64, Seq<u8>)>> {
    Seq::new(v.len(), |i: int| v[i]@)
}

/// The views of a sequence of optional digests.
pub open spec fn roots_view(v: Seq<Option<Vec<u8>>>) -> Seq<Option<Seq<u8>>> {
    Seq::new(v.len(), |i: int| opt_bytes_view(v[i]))
}

/// The key/value pairs for the given keys read out of the cache, in key
/// order; fails when any key has no cached value.
pub fn gen_updates(keys: &KeySet, cache: &KvMap) -> (r: Result<Vec<(u64, Vec<u8>)>, Error>)
    requires
        cache.wf(),
    ensures
        match r {
            Ok(u) => all_in(keys@, cache.map_view()) && entries_view(u@) == gather(
                keys@,
                cache.map_view(),
            ),
            Err(e) => e == Error::MissingStateValue && !all_in(keys@, cache.map_view()),
        },
{
    let mut out: Vec<(u64, Vec<u8>)> = Vec::new();
    let n = keys.len();
    let mut i: usize = 0;
    while i < n
        invariant
            i <= n,
            entries_view(out@) == gather(keys@.take(i as int), cache.map_view()),
            forall|j: int| 0 <= j < i ==> cache.map_view().contains_key(#[trigger] keys@[j]),
        decreases n - i,
    {
        let k = keys.key_at(i);
        match cache.get_cloned(k) {
            Some(v) => {
                out.push((k, v));
                proof {
                    assert(keys@.take(i + 1).drop_last() =~= keys@.take(i as int));
                    assert(keys@.take(i + 1).last() == keys@[i as int]);
                    assert(entries_view(out@) =~= gather(keys@.take(i + 1), cache.map_view()));
                }
            },
            None => {
                proof {
                    assert(!cache.map_view().contains_key(keys@[i as int]));
                }
                return Err(Error::MissingStateValue);
            },
        }
        i += 1;
    }
    proof {
        assert(keys@.take(n as int) =~= keys@);
    }
    Ok(out)
}

impl InMemoryStateCalculator {
    /// The abstract state this working state stands for.
    pub open spec fn model(&self) -> CalcModel {
        CalcModel {
            cache: self.state_cache.map_view(),
            checkpoint: self.checkpoint@,
            checkpoint_version: self.checkpoint_version,
            latest: self.latest@,
            next_version: self.next_version,
            between: self.updated_between_checkpoint_and_latest@,
            after: self.updated_after_latest@,
        }
    }

    /// The flat cache holds no key twice and the abstract state is well
    /// formed.
    pub open spec fn wf(&self) -> bool {
        self.state_cache.wf() && model_wf(self.model())
    }

    /// A calculator for one chunk: it takes over the previous result state,
    /// the preloaded read cache, and the version of the chunk's first
    /// transaction; nothing has been changed after the latest snapshot yet.
    pub fn new(base: &InMemoryState, state_cache: StateCache, next_version: u64) -> (r: Self)
        requires
            base.wf(),
            state_cache.state_cache.wf(),
        ensures
            r.wf(),
            r.model() == (CalcModel {
                cache: state_cache.state_cache.map_view(),
                checkpoint: base@.checkpoint,
                checkpoint_version: base@.checkpoint_version,
                latest: base@.current,
                next_version: next_version,
                between: base@.updated_since_checkpoint,
                after: Seq::<u64>::empty(),
            }),
    {
        let StateCache { frozen_base, state_cache, proofs } = state_cache;
        let r = InMemoryStateCalculator {
            frozen_base,
            state_cache,
            proofs,
            checkpoint: base.checkpoint.duplicate(),
            checkpoint_version: base.checkpoint_version,
            latest: base.current.duplicate(),
            next_version,
            updated_between_checkpoint_and_latest: base.updated_since_checkpoint.duplicate(),
            updated_after_latest: KeySet::new(),
        };
        proof {
            assert(r.model().after =~= Seq::<u64>::empty());
        }
        r
    }

    /// Runs every transaction in order, then folds the trailing changes and
    /// returns the aligned per-transaction outputs, the new result state and,
    /// when the caller says a reconfiguration occurred, the next epoch state
    /// read off the final cache.
    pub fn calculate_for_transaction_chunk(
        self,
        to_keep: &Vec<(Transaction, ParsedTransactionOutput)>,
        new_epoch: bool,
    ) -> (r: Result<
        (Vec<KvMap>, Vec<KvMap>, Vec<Option<Vec<u8>>>, InMemoryState, Option<EpochState>),
        Error,
    >)
        requires
            self.wf(),
            self.next_version + to_keep@.len() <= u64::MAX,
        ensures
            ({
                let tr = spec_chunk(self.model(), txns_view(to_keep@));
                match r {
                    Ok((deltas, hashes, roots, state, epoch)) => {
                        &&& kvmaps_view(deltas@) == tr.deltas
                        &&& kvmaps_view(hashes@) == tr.hashes
                        &&& roots_view(roots@) == tr.roots
                        &&& deltas@.len() == to_keep@.len()
                        &&& state@ == spec_finish(tr.model)
                        &&& state.wf()
                        &&& match epoch {
                            Some(e) => new_epoch && epoch_ok(tr.model.cache) && e.epoch
                                == epoch_of(tr.model.cache[CONFIGURATION_KEY]) && e.verifier@
                                == tr.model.cache[VALIDATOR_SET_KEY],
                            None => !new_epoch,
                        }
                    },
                    Err(e) => new_epoch && !epoch_ok(tr.model.cache) && e == epoch_err(
                        tr.model.cache,
                    ),
                }
            }),
    {
        let ghost m0 = self.model();
        let ghost tv = txns_view(to_keep@);
        let mut this = self;
        let mut state_updates_vec: Vec<KvMap> = Vec::new();
        let mut new_node_hashes_vec: Vec<KvMap> = Vec::new();
        let mut state_checkpoint_hashes: Vec<Option<Vec<u8>>> = Vec::new();
        let n = to_keep.len();
        let mut i: usize = 0;
        while i < n
            invariant
                i <= n,
                this.wf(),
                this.model() == spec_chunk(m0, tv.take(i as int)).model,
                this.next_version == m0.next_version + i,
                kvmaps_view(state_updates_vec@) == spec_chunk(m0, tv.take(i as int)).deltas,
                kvmaps_view(new_node_hashes_vec@) == spec_chunk(m0, tv.take(i as int)).hashes,
                roots_view(state_checkpoint_hashes@) == spec_chunk(m0, tv.take(i as int)).roots,
                state_updates_vec@.len() == i,
            decreases n - i,
        {
            let pair = &to_keep[i];
            match this.add_transaction(&pair.0, &pair.1) {
                Ok((state_updates, new_node_hashes, state_checkpoint_hash)) => {
                    state_updates_vec.push(state_updates);
                    new_node_hashes_vec.push(new_node_hashes);
                    state_checkpoint_hashes.push(state_checkpoint_hash);
                    proof {
                        assert(tv.take(i + 1).drop_last() =~= tv.take(i as int));
                        assert(tv.take(i + 1).last() == tv[i as int]);
                        assert(tv[i as int] == (
                            to_keep@[i as int].0,
                            entries_view(to_keep@[i as int].1.write_set@),
                            to_keep@[i as int].1.is_reconfig,
                        ));
                        assert(kvmaps_view(state_updates_vec@) =~= spec_chunk(
                            m0,
                            tv.take(i + 1),
                        ).deltas);
                        assert(kvmaps_view(new_node_hashes_vec@) =~= spec_chunk(
                            m0,
                            tv.take(i + 1),
                        ).hashes);
                        assert(roots_view(state_checkpoint_hashes@) =~= spec_chunk(
                            m0,
                            tv.take(i + 1),
                        ).roots);
                    }
                },
                Err(e) => {
                    proof {
                        assert(false);
                    }
                    return Err(e);
                },
            }
            i += 1;
        }
        proof {
            assert(tv.take(n as int) =~= tv);
        }
        let (result_state, accounts) = match this.finish() {
            Ok(x) => x,
            Err(e) => {
                proof {
                    assert(false);
                }
                return Err(e);
            },
        };
        let next_epoch_state = if new_epoch {
            match parse_validator_set(&accounts) {
                Ok(e) => Some(e),
                Err(e) => {
                    return Err(e);
                },
            }
        } else {
            None
        };
        Ok((
            state_updates_vec,
            new_node_hashes_vec,
            state_checkpoint_hashes,
            result_state,
            next_epoch_state,
        ))
    }

    /// Applies one transaction's write set to the cache and the after-latest
    /// change set, advances the version, and checkpoints when the transaction
    /// forces it; a non-checkpointing transaction emits nothing.
    pub fn add_transaction(
        &mut self,
        txn: &Transaction,
        txn_output: &ParsedTransactionOutput,
    ) -> (r: Result<(KvMap, KvMap, Option<Vec<u8>>), Error>)
        requires
            old(self).wf(),
            old(self).next_version < u64::MAX,
        ensures
            final(self).wf(),
            match r {
                Ok((delta, hashes, root)) => {
                    &&& final(self).model() == spec_add_model(
                        old(self).model(),
                        *txn,
                        txn_output.ws_view(),
                        txn_output.is_reconfig,
                    )
                    &&& delta@ == spec_add_delta(
                        old(self).model(),
                        *txn,
                        txn_output.ws_view(),
                        txn_output.is_reconfig,
                    )
                    &&& delta.wf()
                    &&& hashes@ == spec_add_hashes(
                        old(self).model(),
                        *txn,
                        txn_output.ws_view(),
                        txn_output.is_reconfig,
                    )
                    &&& hashes.wf()
                    &&& opt_bytes_view(root) == spec_add_root(
                        old(self).model(),
                        *txn,
                        txn_output.ws_view(),
                        txn_output.is_reconfig,
                    )
                },
                Err(_) => false,
            },
    {
        let ghost m0 = self.model();
        let ghost wsv = txn_output.ws_view();
        let n = txn_output.write_set.len();
        let mut i: usize = 0;
        while i < n
            invariant
                i <= n,
                self.state_cache.wf(),
                unique_keys(self.updated_after_latest@),
                self.state_cache.map_view() == writes_over(m0.cache, wsv.take(i as int)),
                self.updated_after_latest@ == merge_keys(
                    m0.after,
                    entry_keys(wsv).take(i as int),
                ),
                self.checkpoint@ == m0.checkpoint,
                self.latest@ == m0.latest,
                self.checkpoint_version == m0.checkpoint_version,
                self.next_version == m0.next_version,
                self.updated_between_checkpoint_and_latest@ == m0.between,
            decreases n - i,
        {
            let k = txn_output.write_set[i].0;
            let v = copy_bytes(&txn_output.write_set[i].1);
            self.state_cache.insert(k, v);
            self.updated_after_latest.insert(k);
            proof {
                assert(wsv.take(i + 1).drop_last() =~= wsv.take(i as int));
                assert(wsv.take(i + 1).last() == wsv[i as int]);
                assert(entry_keys(wsv).take(i + 1).drop_last() =~= entry_keys(wsv).take(i as int));
                assert(entry_keys(wsv).take(i + 1).last() == entry_keys(wsv)[i as int]);
                assert(entry_keys(wsv)[i as int] == wsv[i as int].0);
            }
            i += 1;
        }
        self.next_version = self.next_version + 1;
        proof {
            assert(wsv.take(n as int) =~= wsv);
            assert(entry_keys(wsv).take(n as int) =~= entry_keys(wsv));
            assert(self.model() =~= spec_apply_output(m0, wsv));
            lemma_apply_output_wf(m0, wsv);
        }
        if txn_output.is_reconfig {
            self.checkpoint()
        } else {
            match *txn {
                Transaction::BlockMetadata | Transaction::UserTransaction => {
                    let delta = KvMap::new();
                    let hashes = KvMap::new();
                    Ok((delta, hashes, None))
                },
                Transaction::GenesisTransaction | Transaction::StateCheckpoint => {
                    self.checkpoint()
                },
            }
        }
    }

    /// Folds every key changed after the latest snapshot into the tree,
    /// emits the delta since the previous checkpoint together with the new
    /// node digests and root digest, and resets both change sets.
    pub fn checkpoint(&mut self) -> (r: Result<(KvMap, KvMap, Option<Vec<u8>>), Error>)
        requires
            old(self).wf(),
        ensures
            final(self).wf(),
            match r {
                Ok((delta, hashes, root)) => {
                    &&& final(self).model() == spec_after_checkpoint(old(self).model())
                    &&& delta@ == spec_delta(old(self).model())
                    &&& delta.wf()
                    &&& hashes@ == spec_node_hashes(old(self).model())
                    &&& hashes.wf()
                    &&& opt_bytes_view(root) == Some(spec_root(old(self).model()))
                },
                Err(_) => false,
            },
    {
        let ghost m0 = self.model();
        proof {
            lemma_checkpoint_wf(m0);
            lemma_gather(m0.after, m0.cache);
            lemma_straddle_keys(m0.between, m0.after);
        }
        let updates = match self.updates_after_latest() {
            Ok(u) => u,
            Err(e) => {
                proof {
                    assert(false);
                }
                return Err(e);
            },
        };
        let new_checkpoint = self.latest.batch_update(&updates);
        proof {
            assert(new_checkpoint@ == spec_new_tree(m0));
        }
        let new_node_hashes = new_checkpoint.new_node_hashes_since(&self.checkpoint);
        let root_hash = new_checkpoint.root_hash();
        let mut delta_entries = updates;
        let ghost tree_map = to_map(spec_new_tree(m0));
        let bn = self.updated_between_checkpoint_and_latest.len();
        let mut i: usize = 0;
        while i < bn
            invariant
                i <= bn,
                entries_view(delta_entries@) == spec_updates(m0) + gather(
                    straddle_keys(m0.between.take(i as int), m0.after),
                    tree_map,
                ),
            decreases bn - i,
        {
            let k = self.updated_between_checkpoint_and_latest.key_at(i);
            proof {
                assert(m0.between.take(i + 1).drop_last() =~= m0.between.take(i as int));
                assert(m0.between.take(i + 1).last() == m0.between[i as int]);
            }
            let ghost skp = straddle_keys(m0.between.take(i as int), m0.after);
            let ghost sk = straddle_keys(m0.between.take(i + 1), m0.after);
            if !self.updated_after_latest.contains(k) {
                match new_checkpoint.get_cloned(k) {
                    Some(v) => {
                        proof {
                            assert(spec_get(tree_map, k) == Some(v@));
                            assert(tree_map[k] == v@);
                        }
                        let ghost dprev = entries_view(delta_entries@);
                        let ghost vv = v@;
                        delta_entries.push((k, v));
                        proof {
                            assert(entries_view(delta_entries@) =~= dprev.push((k, vv)));
                            assert(sk =~= skp.push(k));
                            assert(sk.drop_last() =~= skp);
                            assert(sk.last() == k);
                            assert(gather(sk, tree_map) == gather(sk.drop_last(), tree_map).push(
                                (sk.last(), tree_map[sk.last()]),
                            ));
                            assert(gather(sk.drop_last(), tree_map) == gather(skp, tree_map));
                            assert(gather(sk, tree_map) == gather(skp, tree_map).push((k, vv)));
                            assert(dprev == spec_updates(m0) + gather(skp, tree_map));
                            assert(dprev.push((k, vv)) =~= spec_updates(m0) + gather(
                                skp,
                                tree_map,
                            ).push((k, vv)));
                            assert(entries_view(delta_entries@) =~= spec_updates(m0) + gather(
                                sk,
                                tree_map,
                            ));
                        }
                    },
                    None => {
                        proof {
                            assert(m0.between[i as int] == k);
                            assert(m0.between.contains(k));
                            assert(straddle_keys(m0.between, m0.after).contains(k));
                            let j = choose|j: int|
                                0 <= j < straddle_keys(m0.between, m0.after).len()
                                    && straddle_keys(m0.between, m0.after)[j] == k;
                            assert(tree_map.contains_key(k));
                            assert(false);
                        }
                        return Err(Error::PendingStateMissing);
                    },
                }
            } else {
                proof {
                    assert(sk =~= skp);
                    assert(gather(sk, tree_map) == gather(skp, tree_map));
                    assert(entries_view(delta_entries@) =~= spec_updates(m0) + gather(
                        sk,
                        tree_map,
                    ));
                }
            }
            i += 1;
        }
        proof {
            assert(m0.between.take(bn as int) =~= m0.between);
        }
        let delta = KvMap { entries: delta_entries };
        self.latest = new_checkpoint.duplicate();
        self.checkpoint = new_checkpoint;
        self.checkpoint_version = if self.next_version == 0 {
            None
        } else {
            Some(self.next_version - 1)
        };
        self.updated_between_checkpoint_and_latest = KeySet::new();
        self.updated_after_latest = KeySet::new();
        proof {
            assert(self.model() =~= spec_after_checkpoint(m0));
        }
        Ok((delta, new_node_hashes, Some(root_hash)))
    }

    /// Every key changed after the latest snapshot with its cached value, the
    /// independent lookups fanned out over worker threads.
    pub fn updates_after_latest(&self) -> (r: Result<Vec<(u64, Vec<u8>)>, Error>)
        requires
            self.state_cache.wf(),
        ensures
            match r {
                Ok(u) => all_in(self.model().after, self.model().cache) && entries_view(u@)
                    == gather(self.model().after, self.model().cache),
                Err(e) => e == Error::MissingStateValue && !all_in(
                    self.model().after,
                    self.model().cache,
                ),
            },
    {
        let looked = par_lookup(&self.updated_after_latest, &self.state_cache);
        let mut out: Vec<(u64, Vec<u8>)> = Vec::new();
        let n = self.updated_after_latest.len();
        let mut i: usize = 0;
        while i < n
            invariant
                i <= n,
                looked@.len() == n,
                entries_view(out@) == gather(self.model().after.take(i as int), self.model().cache),
                forall|j: int|
                    0 <= j < i ==> self.model().cache.contains_key(#[trigger] self.model().after[j]),
            decreases n - i,
        {
            let k = self.updated_after_latest.key_at(i);
            match &looked[i] {
                Some(v) => {
                    out.push((k, copy_bytes(v)));
                    proof {
                        let after = self.model().after;
                        assert(opt_bytes_view(looked@[i as int]) == spec_get(
                            self.model().cache,
                            after[i as int],
                        ));
                        assert(after.take(i + 1).drop_last() =~= after.take(i as int));
                        assert(after.take(i + 1).last() == after[i as int]);
                        assert(entries_view(out@) =~= gather(
                            after.take(i + 1),
                            self.model().cache,
                        ));
                    }
                },
                None => {
                    proof {
                        assert(opt_bytes_view(looked@[i as int]) == spec_get(
                            self.model().cache,
                            self.model().after[i as int],
                        ));
                        assert(!self.model().cache.contains_key(self.model().after[i as int]));
                    }
                    return Err(Error::MissingStateValue);
                },
            }
            i += 1;
        }
        proof {
            assert(self.model().after.take(n as int) =~= self.model().after);
        }
        Ok(out)
    }

    /// Folds the trailing changes into the tree and hands back the new result
    /// state together with the final read cache; consumes the calculator.
    pub fn finish(self) -> (r: Result<(InMemoryState, KvMap), Error>)
        requires
            self.wf(),
        ensures
            match r {
                Ok((state, cache)) => {
                    &&& state@ == spec_finish(self.model())
                    &&& state.wf()
                    &&& cache.map_view() == self.model().cache
                    &&& cache.wf()
                },
                Err(_) => false,
            },
    {
        let ghost m0 = self.model();
        proof {
            lemma_checkpoint_wf(m0);
            lemma_gather(m0.after, m0.cache);
            lemma_merge_keys(m0.between, m0.after);
            lemma_updates_keys(m0);
            lemma_writes_over_frame(to_map(m0.latest), spec_updates(m0));
        }
        let InMemoryStateCalculator {
            frozen_base: _,
            state_cache,
            proofs: _,
            checkpoint,
            checkpoint_version,
            latest,
            next_version: _,
            updated_between_checkpoint_and_latest,
            updated_after_latest,
        } = self;
        let updates = match gen_updates(&updated_after_latest, &state_cache) {
            Ok(u) => u,
            Err(e) => {
                proof {
                    assert(false);
                }
                return Err(e);
            },
        };
        let new_latest = latest.batch_update(&updates);
        proof {
            assert(new_latest@ == spec_new_tree(m0));
        }
        let mut updated_since_checkpoint = updated_between_checkpoint_and_latest;
        let an = updated_after_latest.len();
        let mut i: usize = 0;
        while i < an
            invariant
                i <= an,
                unique_keys(updated_since_checkpoint@),
                updated_since_checkpoint@ == merge_keys(m0.between, m0.after.take(i as int)),
            decreases an - i,
        {
            let k = updated_after_latest.key_at(i);
            updated_since_checkpoint.insert(k);
            proof {
                assert(m0.after.take(i + 1).drop_last() =~= m0.after.take(i as int));
                assert(m0.after.take(i + 1).last() == m0.after[i as int]);
            }
            i += 1;
        }
        proof {
            assert(m0.after.take(an as int) =~= m0.after);
        }
        let state = InMemoryState {
            checkpoint,
            checkpoint_version,
            current: new_latest,
            updated_since_checkpoint,
        };
        proof {
            assert(state@ =~= spec_finish(m0));
            let sv = state@;
            assert forall|j: int|
                0 <= j < sv.updated_since_checkpoint.len() implies to_map(
                sv.current,
            ).contains_key(#[trigger] sv.updated_since_checkpoint[j]) by {
                let k = sv.updated_since_checkpoint[j];
                assert(sv.updated_since_checkpoint.contains(k));
                assert(merge_keys(m0.between, m0.after).contains(k));
                if m0.between.contains(k) {
                    let q = choose|q: int| 0 <= q < m0.between.len() && m0.between[q] == k;
                    assert(to_map(m0.latest).contains_key(k));
                } else {
                    assert(m0.after.contains(k));
                    assert(to_map(spec_updates(m0)).contains_key(k));
                }
            }
            assert forall|k: u64|
                !sv.updated_since_checkpoint.contains(k) implies #[trigger] spec_get(
                to_map(sv.current),
                k,
            ) == spec_get(to_map(sv.checkpoint), k) by {
                assert(!merge_keys(m0.between, m0.after).contains(k));
                assert(!m0.between.contains(k));
                assert(!m0.after.contains(k));
                assert(!to_map(spec_updates(m0)).contains_key(k));
                assert(spec_get(to_map(spec_new_tree(m0)), k) == spec_get(to_map(m0.latest), k));
            }
        }
        Ok((state, state_cache))
    }
}

} // verus!
