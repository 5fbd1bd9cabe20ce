//! The mathematical model of the calculator: its abstract state and the
//! transition each transaction, checkpoint and finish step makes on it.
//!
//! The executable calculator's contracts say that it follows these
//! transitions exactly; the laws about the calculator are proved over them.

#![verifier::loop_isolation(false)]

use vstd::prelude::*;

use crate::hash::digest_of;
use crate::kv::entry_keys;
use crate::kv::lemma_merge_keys;
use crate::kv::lemma_to_map;
use crate::kv::merge_keys;
use crate::kv::spec_get;
use crate::kv::to_map;
use crate::kv::unique_entry_keys;
use crate::kv::unique_keys;
use crate::tree::apply_updates;
use crate::tree::diff_hashes;
use crate::tree::enc_entries;
use crate::tree::lemma_apply_updates;
use crate::tree::strictly_sorted;
use crate::tree::writes_over;

verus! {

/// The kinds of transaction this engine accepts. The sum is closed: deciding
/// whether a transaction forces a checkpoint matches on it exhaustively, so a
/// new kind is a compile-time-visible change, never a silent fallthrough.
#[derive(Clone, Copy, PartialEq, Eq, Structural, Debug)]
pub enum Transaction {
    /// An ordinary user transaction; never forces a checkpoint by itself.
    UserTransaction,
    /// A block-metadata transaction; never forces a checkpoint by itself.
    BlockMetadata,
    /// A genesis transaction; always forces a checkpoint.
    GenesisTransaction,
    /// An explicit state-checkpoint marker; always forces a checkpoint.
    StateCheckpoint,
}

/// The abstract state of a calculator.
#[verifier::ext_equal]
pub struct CalcModel {
    /// The flat read cache, as a map.
    pub cache: Map<u64, Seq<u8>>,
    /// The snapshot as of the last checkpoint.
    pub checkpoint: Seq<(u64, Seq<u8>)>,
    /// The version of the last checkpointed transaction, if any.
    pub checkpoint_version: Option<u64>,
    /// The latest snapshot.
    pub latest: Seq<(u64, Seq<u8>)>,
    /// The version of the next transaction to be applied.
    pub next_version: u64,
    /// Keys changed after the checkpoint but before the latest snapshot.
    pub between: Seq<u64>,
    /// Keys changed after the latest snapshot.
    pub after: Seq<u64>,
}

/// The abstract content of a result state handed back to the caller.
#[verifier::ext_equal]
pub struct StateModel {
    /// The snapshot as of the last checkpoint.
    pub checkpoint: Seq<(u64, Seq<u8>)>,
    /// The version of the last checkpointed transaction, if any.
    pub checkpoint_version: Option<u64>,
    /// The latest snapshot.
    pub current: Seq<(u64, Seq<u8>)>,
    /// Keys changed since the checkpoint.
    pub updated_since_checkpoint: Seq<u64>,
}

/// Every key of `keys` has a value in `cache`.
pub open spec fn all_in(keys: Seq<u64>, cache: Map<u64, Seq<u8>>) -> bool {
    forall|i: int| 0 <= i < keys.len() ==> cache.contains_key(#[trigger] keys[i])
}

/// The key/value pairs of `keys` read out of `cache`, in key order.
pub open spec fn gather(keys: Seq<u64>, cache: Map<u64, Seq<u8>>) -> Seq<(u64, Seq<u8>)>
    decreases keys.len(),
{
    if keys.len() == 0 {
        Seq::empty()
    } else {
        gather(keys.drop_last(), cache).push((keys.last(), cache[keys.last()]))
    }
}

/// Gathering pairs each key with its cached value, in order.
pub proof fn lemma_gather(keys: Seq<u64>, cache: Map<u64, Seq<u8>>)
    ensures
        gather(keys, cache).len() == keys.len(),
        forall|i: int|
            0 <= i < keys.len() ==> #[trigger] gather(keys, cache)[i] == (
                keys[i],
                cache[keys[i]],
            ),
        unique_keys(keys) ==> unique_entry_keys(gather(keys, cache)),
    decreases keys.len(),
{
    if keys.len() == 0 {
    } else {
        lemma_gather(keys.drop_last(), cache);
    }
}

/// The keys of `between` not re-modified in `after`, in order.
pub open spec fn straddle_keys(between: Seq<u64>, after: Seq<u64>) -> Seq<u64>
    decreases between.len(),
{
    if between.len() == 0 {
        Seq::empty()
    } else {
        straddle_keys(between.drop_last(), after) + (if after.contains(between.last()) {
            Seq::<u64>::empty()
        } else {
            seq![between.last()]
        })
    }
}

/// What straddling keys are: members of `between` absent from `after`.
pub proof fn lemma_straddle_keys(between: Seq<u64>, after: Seq<u64>)
    requires
        unique_keys(between),
    ensures
        unique_keys(straddle_keys(between, after)),
        forall|k: u64| #![trigger straddle_keys(between, after).contains(k)]
            straddle_keys(between, after).contains(k) <==> between.contains(k) && !after.contains(
                k,
            ),
    decreases between.len(),
{
    if between.len() == 0 {
    } else {
        let d = between.drop_last();
        lemma_straddle_keys(d, after);
        let rest = straddle_keys(d, after);
        let tail: Seq<u64> = if after.contains(between.last()) {
            Seq::empty()
        } else {
            seq![between.last()]
        };
        let r = straddle_keys(between, after);
        assert(r == rest + tail);
        assert(r.len() == rest.len() + tail.len());
        assert(forall|i: int| 0 <= i < rest.len() ==> r[i] == rest[i]);
        assert forall|k: u64| r.contains(k) implies between.contains(k) && !after.contains(k) by {
            let i = choose|i: int| 0 <= i < r.len() && r[i] == k;
            if i < rest.len() {
                assert(rest[i] == k);
                assert(rest.contains(k));
                let j = choose|j: int| 0 <= j < d.len() && d[j] == k;
                assert(between[j] == k);
            } else {
                assert(tail.len() == 1);
                assert(r[i] == tail[i - rest.len()]);
                assert(k == between.last());
                assert(between[between.len() - 1] == k);
            }
        }
        assert forall|k: u64| between.contains(k) && !after.contains(k) implies r.contains(k) by {
            let i = choose|i: int| 0 <= i < between.len() && between[i] == k;
            if i < between.len() - 1 {
                assert(d[i] == k);
                assert(d.contains(k));
                assert(rest.contains(k));
                let j = choose|j: int| 0 <= j < rest.len() && rest[j] == k;
                assert(r[j] == k);
            } else {
                assert(k == between.last());
                assert(tail.len() == 1);
                assert(r[rest.len() as int] == k);
            }
        }
        assert forall|i: int, j: int| 0 <= i < j < r.len() implies r[i] != r[j] by {
            if j >= rest.len() {
                assert(tail.len() == 1);
                assert(r[j] == between.last());
                assert(rest[i] == r[i]);
                assert(rest.contains(r[i]));
                if r[i] == between.last() {
                    let q = choose|q: int| 0 <= q < d.len() && d[q] == r[i];
                    assert(between[q] == between[between.len() - 1]);
                    assert(false);
                }
            }
        }
    }
}

/// Writing a batch over a map overlays the batch's own map, later entries
/// winning.
pub proof fn lemma_writes_over_union(m: Map<u64, Seq<u8>>, us: Seq<(u64, Seq<u8>)>)
    ensures
        writes_over(m, us) == m.union_prefer_right(to_map(us)),
    decreases us.len(),
{
    if us.len() == 0 {
        assert(writes_over(m, us) =~= m.union_prefer_right(to_map(us)));
    } else {
        lemma_writes_over_union(m, us.drop_last());
        assert(writes_over(m, us) =~= m.union_prefer_right(to_map(us)));
    }
}

/// The map of a concatenation is the overlay of the two maps.
pub proof fn lemma_to_map_concat(a: Seq<(u64, Seq<u8>)>, b: Seq<(u64, Seq<u8>)>)
    ensures
        to_map(a + b) == to_map(a).union_prefer_right(to_map(b)),
    decreases b.len(),
{
    if b.len() == 0 {
        assert(a + b =~= a);
        assert(to_map(a + b) =~= to_map(a).union_prefer_right(to_map(b)));
    } else {
        lemma_to_map_concat(a, b.drop_last());
        assert((a + b).drop_last() =~= a + b.drop_last());
        assert((a + b).last() == b.last());
        assert(to_map(a + b) =~= to_map(a).union_prefer_right(to_map(b)));
    }
}

/// A calculator state is well formed when its snapshots are canonical, its
/// change sets hold no key twice, keys changed before the latest snapshot
/// live in it, keys changed after it have cached values, and the latest
/// snapshot is the checkpoint overlaid with exactly the changed keys.
pub open spec fn model_wf(m: CalcModel) -> bool {
    &&& strictly_sorted(m.checkpoint)
    &&& strictly_sorted(m.latest)
    &&& unique_keys(m.between)
    &&& unique_keys(m.after)
    &&& forall|i: int|
        0 <= i < m.between.len() ==> to_map(m.latest).contains_key(#[trigger] m.between[i])
    &&& forall|i: int| 0 <= i < m.after.len() ==> m.cache.contains_key(#[trigger] m.after[i])
    &&& forall|k: u64|
        !m.between.contains(k) && !m.after.contains(k) ==> #[trigger] spec_get(to_map(m.latest), k)
            == spec_get(to_map(m.checkpoint), k)
}

/// A transaction forces a checkpoint when its output is flagged as a
/// reconfiguration, or when it is a genesis transaction or an explicit
/// state-checkpoint marker.
pub open spec fn forces_checkpoint(txn: Transaction, is_reconfig: bool) -> bool {
    is_reconfig || txn == Transaction::GenesisTransaction || txn == Transaction::StateCheckpoint
}

/// Applying one transaction's write set: the cache takes the writes, the
/// written keys join the after-latest change set, and the version advances.
pub open spec fn spec_apply_output(m: CalcModel, ws: Seq<(u64, Seq<u8>)>) -> CalcModel {
    CalcModel {
        cache: writes_over(m.cache, ws),
        after: merge_keys(m.after, entry_keys(ws)),
        next_version: (m.next_version + 1) as u64,
        ..m
    }
}

/// The key/value pairs to fold into the tree: every key changed after the
/// latest snapshot, with its cached value.
pub open spec fn spec_updates(m: CalcModel) -> Seq<(u64, Seq<u8>)> {
    gather(m.after, m.cache)
}

/// The snapshot a checkpoint (or the final fold) builds.
pub open spec fn spec_new_tree(m: CalcModel) -> Seq<(u64, Seq<u8>)> {
    apply_updates(m.latest, spec_updates(m))
}

/// The straddling pairs: keys changed since the checkpoint but not after the
/// latest snapshot, each with its value read out of the new snapshot.
pub open spec fn spec_straddle(m: CalcModel) -> Seq<(u64, Seq<u8>)> {
    gather(straddle_keys(m.between, m.after), to_map(spec_new_tree(m)))
}

/// The delta a checkpoint emits: the folded pairs and the straddling pairs.
pub open spec fn spec_delta(m: CalcModel) -> Seq<(u64, Seq<u8>)> {
    spec_updates(m) + spec_straddle(m)
}

/// The node digests a checkpoint emits: every leaf of the new snapshot that
/// differs from the previous checkpoint snapshot.
pub open spec fn spec_node_hashes(m: CalcModel) -> Seq<(u64, Seq<u8>)> {
    diff_hashes(spec_new_tree(m), to_map(m.checkpoint))
}

/// The root digest a checkpoint emits.
pub open spec fn spec_root(m: CalcModel) -> Seq<u8> {
    digest_of(enc_entries(spec_new_tree(m)))
}

/// The state after a checkpoint: both snapshots become the new one, the
/// checkpoint version becomes the last applied version, and both change sets
/// reset to empty.
pub open spec fn spec_after_checkpoint(m: CalcModel) -> CalcModel {
    CalcModel {
        cache: m.cache,
        checkpoint: spec_new_tree(m),
        checkpoint_version: if m.next_version == 0 {
            None
        } else {
            Some((m.next_version - 1) as u64)
        },
        latest: spec_new_tree(m),
        next_version: m.next_version,
        between: Seq::empty(),
        after: Seq::empty(),
    }
}

/// The state after one transaction.
pub open spec fn spec_add_model(
    m: CalcModel,
    txn: Transaction,
    ws: Seq<(u64, Seq<u8>)>,
    is_reconfig: bool,
) -> CalcModel {
    let m1 = spec_apply_output(m, ws);
    if forces_checkpoint(txn, is_reconfig) {
        spec_after_checkpoint(m1)
    } else {
        m1
    }
}

/// The delta one transaction emits.
pub open spec fn spec_add_delta(
    m: CalcModel,
    txn: Transaction,
    ws: Seq<(u64, Seq<u8>)>,
    is_reconfig: bool,
) -> Seq<(u64, Seq<u8>)> {
    if forces_checkpoint(txn, is_reconfig) {
        spec_delta(spec_apply_output(m, ws))
    } else {
        Seq::empty()
    }
}

/// The node digests one transaction emits.
pub open spec fn spec_add_hashes(
    m: CalcModel,
    txn: Transaction,
    ws: Seq<(u64, Seq<u8>)>,
    is_reconfig: bool,
) -> Seq<(u64, Seq<u8>)> {
    if forces_checkpoint(txn, is_reconfig) {
        spec_node_hashes(spec_apply_output(m, ws))
    } else {
        Seq::empty()
    }
}

/// The root digest one transaction emits, if it checkpoints.
pub open spec fn spec_add_root(
    m: CalcModel,
    txn: Transaction,
    ws: Seq<(u64, Seq<u8>)>,
    is_reconfig: bool,
) -> Option<Seq<u8>> {
    if forces_checkpoint(txn, is_reconfig) {
        Some(spec_root(spec_apply_output(m, ws)))
    } else {
        None
    }
}

/// What processing a whole chunk produces: the end state and the three
/// aligned output sequences.
#[verifier::ext_equal]
pub struct ChunkTrace {
    /// The calculator state after the chunk.
    pub model: CalcModel,
    /// One key/value delta per transaction.
    pub deltas: Seq<Seq<(u64, Seq<u8>)>>,
    /// One node-digest delta per transaction.
    pub hashes: Seq<Seq<(u64, Seq<u8>)>>,
    /// One optional root digest per transaction.
    pub roots: Seq<Option<Seq<u8>>>,
}

/// What processing a chunk does, transaction by transaction: each one as a
/// triple of its kind, its write set and its reconfiguration flag.
pub open spec fn spec_chunk(
    m: CalcModel,
    txns: Seq<(Transaction, Seq<(u64, Seq<u8>)>, bool)>,
) -> ChunkTrace
    decreases txns.len(),
{
    if txns.len() == 0 {
        ChunkTrace { model: m, deltas: Seq::empty(), hashes: Seq::empty(), roots: Seq::empty() }
    } else {
        let p = spec_chunk(m, txns.drop_last());
        let t = txns.last();
        ChunkTrace {
            model: spec_add_model(p.model, t.0, t.1, t.2),
            deltas: p.deltas.push(spec_add_delta(p.model, t.0, t.1, t.2)),
            hashes: p.hashes.push(spec_add_hashes(p.model, t.0, t.1, t.2)),
            roots: p.roots.push(spec_add_root(p.model, t.0, t.1, t.2)),
        }
    }
}

/// The result state the final fold produces: the latest snapshot takes the
/// trailing changes, and the change sets merge into one.
pub open spec fn spec_finish(m: CalcModel) -> StateModel {
    StateModel {
        checkpoint: m.checkpoint,
        checkpoint_version: m.checkpoint_version,
        current: spec_new_tree(m),
        updated_since_checkpoint: merge_keys(m.between, m.after),
    }
}

/// Keys present in a map written over stay present; keys written appear; a
/// key not written keeps its value.
pub proof fn lemma_writes_over_frame(m: Map<u64, Seq<u8>>, us: Seq<(u64, Seq<u8>)>)
    ensures
        forall|k: u64| #[trigger]
            writes_over(m, us).contains_key(k) <==> m.contains_key(k) || to_map(us).contains_key(
                k,
            ),
        forall|k: u64|
            !to_map(us).contains_key(k) ==> #[trigger] spec_get(writes_over(m, us), k) == spec_get(
                m,
                k,
            ),
        forall|k: u64| #[trigger]
            to_map(us).contains_key(k) ==> writes_over(m, us)[k] == to_map(us)[k],
{
    lemma_writes_over_union(m, us);
}

/// The keys folded at a checkpoint are exactly the after-latest keys, each
/// bound to its cached value.
pub proof fn lemma_updates_keys(m: CalcModel)
    requires
        unique_keys(m.after),
    ensures
        forall|k: u64| #[trigger]
            to_map(spec_updates(m)).contains_key(k) <==> m.after.contains(k),
        forall|k: u64|
            m.after.contains(k) ==> #[trigger] to_map(spec_updates(m))[k] == m.cache[k],
{
    let u = spec_updates(m);
    lemma_gather(m.after, m.cache);
    lemma_to_map(u);
    assert forall|k: u64| #[trigger] to_map(u).contains_key(k) implies m.after.contains(k) by {
        let i = choose|i: int| 0 <= i < u.len() && u[i].0 == k;
        assert(u[i] == (m.after[i], m.cache[m.after[i]]));
        assert(m.after[i] == k);
    }
    assert forall|k: u64| m.after.contains(k) implies #[trigger] to_map(u).contains_key(k) by {
        let i = choose|i: int| 0 <= i < m.after.len() && m.after[i] == k;
        assert(u[i] == (m.after[i], m.cache[m.after[i]]));
        assert(u[i].0 == k);
    }
    assert forall|k: u64| m.after.contains(k) implies #[trigger] to_map(u)[k] == m.cache[k] by {
        let i = choose|i: int| 0 <= i < m.after.len() && m.after[i] == k;
        assert(u[i] == (m.after[i], m.cache[m.after[i]]));
        assert(u[i].0 == k);
        assert(to_map(u)[u[i].0] == u[i].1);
    }
}

/// Applying one output keeps the state well formed.
pub proof fn lemma_apply_output_wf(m: CalcModel, ws: Seq<(u64, Seq<u8>)>)
    requires
        model_wf(m),
    ensures
        model_wf(spec_apply_output(m, ws)),
        forall|k: u64| #[trigger]
            spec_apply_output(m, ws).after.contains(k) <==> m.after.contains(k) || entry_keys(
                ws,
            ).contains(k),
{
    let m1 = spec_apply_output(m, ws);
    lemma_merge_keys(m.after, entry_keys(ws));
    lemma_writes_over_frame(m.cache, ws);
    lemma_to_map(ws);
    assert forall|i: int| 0 <= i < m1.after.len() implies m1.cache.contains_key(
        #[trigger] m1.after[i],
    ) by {
        let k = m1.after[i];
        assert(m1.after.contains(k));
        if m.after.contains(k) {
            let j = choose|j: int| 0 <= j < m.after.len() && m.after[j] == k;
        } else {
            assert(entry_keys(ws).contains(k));
            let j = choose|j: int| 0 <= j < entry_keys(ws).len() && entry_keys(ws)[j] == k;
            assert(ws[j].0 == k);
            assert(to_map(ws).contains_key(k));
        }
    }
    assert forall|k: u64|
        !m1.between.contains(k) && !m1.after.contains(k) implies #[trigger] spec_get(
        to_map(m1.latest),
        k,
    ) == spec_get(to_map(m1.checkpoint), k) by {
        assert(!m.after.contains(k));
    }
}

/// A checkpoint from a well-formed state: the folded keys all have cached
/// values, the straddling keys all live in the new snapshot, and the state
/// after the checkpoint is well formed.
pub proof fn lemma_checkpoint_wf(m: CalcModel)
    requires
        model_wf(m),
    ensures
        all_in(m.after, m.cache),
        strictly_sorted(spec_new_tree(m)),
        all_in(straddle_keys(m.between, m.after), to_map(spec_new_tree(m))),
        model_wf(spec_after_checkpoint(m)),
        unique_entry_keys(spec_delta(m)),
{
    lemma_gather(m.after, m.cache);
    lemma_apply_updates(m.latest, spec_updates(m));
    lemma_writes_over_frame(to_map(m.latest), spec_updates(m));
    lemma_straddle_keys(m.between, m.after);
    let tree = spec_new_tree(m);
    let sk = straddle_keys(m.between, m.after);
    assert forall|i: int| 0 <= i < sk.len() implies to_map(tree).contains_key(
        #[trigger] sk[i],
    ) by {
        let k = sk[i];
        assert(sk.contains(k));
        assert(m.between.contains(k));
        let j = choose|j: int| 0 <= j < m.between.len() && m.between[j] == k;
        assert(to_map(m.latest).contains_key(k));
    }
    let m2 = spec_after_checkpoint(m);
    assert(forall|k: u64|
        !m2.between.contains(k) && !m2.after.contains(k) ==> #[trigger] spec_get(
            to_map(m2.latest),
            k,
        ) == spec_get(to_map(m2.checkpoint), k));
    lemma_gather(sk, to_map(tree));
    lemma_to_map(spec_updates(m));
    let delta = spec_delta(m);
    assert forall|i: int, j: int| 0 <= i < j < delta.len() implies delta[i].0 != delta[j].0 by {
        let u = spec_updates(m);
        if i < u.len() && j >= u.len() {
            assert(delta[i] == u[i]);
            assert(delta[j] == spec_straddle(m)[j - u.len()]);
            assert(delta[j].0 == sk[j - u.len()]);
            assert(sk.contains(sk[j - u.len()]));
            assert(u[i].0 == m.after[i]);
            assert(m.after.contains(m.after[i]));
        } else if i < u.len() && j < u.len() {
            assert(delta[i] == u[i]);
            assert(delta[j] == u[j]);
        } else {
            assert(delta[i].0 == sk[i - u.len()]);
            assert(delta[j].0 == sk[j - u.len()]);
        }
    }
}

} // verus!
