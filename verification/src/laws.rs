//! Laws of the calculator, proved over its model: determinism, equivalence
//! with a from-scratch recomputation, completeness of checkpoint deltas,
//! silence of non-checkpoint transactions, and the reset invariant.

#![verifier::loop_isolation(false)]

use vstd::prelude::*;

use crate::hash::digest_of;
use crate::kv::entry_keys;
use crate::kv::lemma_merge_keys;
use crate::kv::lemma_to_map;
use crate::kv::spec_get;
use crate::kv::to_map;
use crate::kv::unique_entry_keys;
use crate::model::forces_checkpoint;
use crate::model::lemma_apply_output_wf;
use crate::model::lemma_checkpoint_wf;
use crate::model::lemma_gather;
use crate::model::lemma_straddle_keys;
use crate::model::lemma_to_map_concat;
use crate::model::lemma_updates_keys;
use crate::model::lemma_writes_over_union;
use crate::model::model_wf;
use crate::model::spec_add_delta;
use crate::model::spec_add_hashes;
use crate::model::spec_add_model;
use crate::model::spec_add_root;
use crate::model::spec_after_checkpoint;
use crate::model::spec_apply_output;
use crate::model::spec_chunk;
use crate::model::spec_delta;
use crate::model::spec_finish;
use crate::model::spec_new_tree;
use crate::model::spec_straddle;
use crate::model::spec_updates;
use crate::model::straddle_keys;
use crate::model::CalcModel;
use crate::model::Transaction;
use crate::tree::apply_updates;
use crate::tree::enc_entries;
use crate::tree::lemma_apply_updates;
use crate::tree::lemma_apply_updates_concat;
use crate::tree::lemma_sorted_same_entries;

verus! {

/// Determinism: one state and one ordered chunk have exactly one outcome.
/// Two runs from equal states over equal chunks produce equal end states and
/// equal delta, node-digest and root sequences.
pub proof fn lemma_chunk_deterministic(
    m1: CalcModel,
    m2: CalcModel,
    txns1: Seq<(Transaction, Seq<(u64, Seq<u8>)>, bool)>,
    txns2: Seq<(Transaction, Seq<(u64, Seq<u8>)>, bool)>,
)
    requires
        m1 == m2,
        txns1 == txns2,
    ensures
        spec_chunk(m1, txns1) == spec_chunk(m2, txns2),
{
}

/// A transaction that neither reconfigures nor is a genesis or
/// state-checkpoint marker emits an empty delta, an empty node-digest set,
/// and no root digest.
pub proof fn lemma_non_checkpoint_silent(
    m: CalcModel,
    txn: Transaction,
    ws: Seq<(u64, Seq<u8>)>,
    is_reconfig: bool,
)
    requires
        !forces_checkpoint(txn, is_reconfig),
    ensures
        spec_add_delta(m, txn, ws, is_reconfig) == Seq::<(u64, Seq<u8>)>::empty(),
        spec_add_hashes(m, txn, ws, is_reconfig) == Seq::<(u64, Seq<u8>)>::empty(),
        spec_add_root(m, txn, ws, is_reconfig) is None,
{
}

/// Immediately after a checkpointing transaction, both change-tracking sets
/// are empty and the checkpoint version is the version just applied.
pub proof fn lemma_checkpoint_reset(
    m: CalcModel,
    txn: Transaction,
    ws: Seq<(u64, Seq<u8>)>,
    is_reconfig: bool,
)
    requires
        forces_checkpoint(txn, is_reconfig),
        m.next_version < u64::MAX,
    ensures
        spec_add_model(m, txn, ws, is_reconfig).between == Seq::<u64>::empty(),
        spec_add_model(m, txn, ws, is_reconfig).after == Seq::<u64>::empty(),
        spec_add_model(m, txn, ws, is_reconfig).checkpoint_version == Some(
            (spec_add_model(m, txn, ws, is_reconfig).next_version - 1) as u64,
        ),
{
}

/// Checkpoint delta completeness: the delta a checkpoint emits binds exactly
/// the keys written since the previous checkpoint — those changed after the
/// latest snapshot and those changed between checkpoint and latest — each to
/// its value in the snapshot the checkpoint builds: no stale values, no
/// omissions.
pub proof fn lemma_checkpoint_delta_completeness(m: CalcModel)
    requires
        model_wf(m),
    ensures
        unique_entry_keys(spec_delta(m)),
        forall|k: u64| #[trigger]
            to_map(spec_delta(m)).contains_key(k) <==> m.after.contains(k) || m.between.contains(
                k,
            ),
        forall|k: u64| #[trigger]
            to_map(spec_delta(m)).contains_key(k) ==> to_map(spec_new_tree(m)).contains_key(k)
                && to_map(spec_delta(m))[k] == to_map(spec_new_tree(m))[k],
{
    lemma_checkpoint_wf(m);
    lemma_gather(m.after, m.cache);
    lemma_straddle_keys(m.between, m.after);
    let u = spec_updates(m);
    let sk = straddle_keys(m.between, m.after);
    let tree = spec_new_tree(m);
    let tm = to_map(tree);
    lemma_gather(sk, tm);
    let st = spec_straddle(m);
    let delta = spec_delta(m);
    lemma_to_map(delta);
    lemma_updates_keys(m);
    lemma_apply_updates(m.latest, u);
    lemma_writes_over_union(to_map(m.latest), u);
    assert forall|k: u64| #[trigger] to_map(delta).contains_key(k) implies m.after.contains(k)
        || m.between.contains(k) by {
        let i = choose|i: int| 0 <= i < delta.len() && delta[i].0 == k;
        if i < u.len() {
            assert(delta[i] == u[i]);
            assert(u[i] == (m.after[i], m.cache[m.after[i]]));
            assert(m.after[i] == k);
        } else {
            assert(delta[i] == st[i - u.len()]);
            assert(st[i - u.len()] == (sk[i - u.len()], tm[sk[i - u.len()]]));
            assert(sk[i - u.len()] == k);
            assert(sk.contains(k));
        }
    }
    assert forall|k: u64| m.after.contains(k) || m.between.contains(k) implies #[trigger] to_map(
        delta,
    ).contains_key(k) by {
        if m.after.contains(k) {
            let i = choose|i: int| 0 <= i < m.after.len() && m.after[i] == k;
            assert(u[i] == (m.after[i], m.cache[m.after[i]]));
            assert(delta[i] == u[i]);
            assert(delta[i].0 == k);
        } else {
            assert(sk.contains(k));
            let j = choose|j: int| 0 <= j < sk.len() && sk[j] == k;
            assert(st[j] == (sk[j], tm[sk[j]]));
            assert(delta[u.len() + j] == st[j]);
            assert(delta[u.len() + j].0 == k);
        }
    }
    assert forall|k: u64| #[trigger] to_map(delta).contains_key(k) implies tm.contains_key(k)
        && to_map(delta)[k] == tm[k] by {
        let i = choose|i: int| 0 <= i < delta.len() && delta[i].0 == k;
        assert(to_map(delta)[delta[i].0] == delta[i].1);
        if i < u.len() {
            assert(delta[i] == u[i]);
            assert(u[i] == (m.after[i], m.cache[m.after[i]]));
            assert(m.after[i] == k);
            assert(m.after.contains(k));
            assert(to_map(u).contains_key(k));
            assert(tm == to_map(m.latest).union_prefer_right(to_map(u)));
            assert(tm[k] == to_map(u)[k]);
            assert(to_map(u)[k] == m.cache[k]);
            assert(delta[i].1 == m.cache[m.after[i]]);
        } else {
            assert(delta[i] == st[i - u.len()]);
            assert(st[i - u.len()] == (sk[i - u.len()], tm[sk[i - u.len()]]));
            assert(sk[i - u.len()] == k);
            assert(sk.contains(k));
            let j = choose|j: int| 0 <= j < sk.len() && sk[j] == k;
            assert(tm.contains_key(k));
        }
    }
}

/// The writes of a whole chunk, flattened in order.
pub open spec fn chunk_writes(txns: Seq<(Transaction, Seq<(u64, Seq<u8>)>, bool)>) -> Seq<
    (u64, Seq<u8>),
>
    decreases txns.len(),
{
    if txns.len() == 0 {
        Seq::empty()
    } else {
        chunk_writes(txns.drop_last()) + txns.last().1
    }
}

/// What a key reads as once the pending changes are folded: its last write
/// if it was changed after the latest snapshot, else the latest snapshot.
pub open spec fn folded_get(m: CalcModel, w: Seq<(u64, Seq<u8>)>, q: u64) -> Option<Seq<u8>> {
    if m.after.contains(q) {
        Some(to_map(w)[q])
    } else {
        spec_get(to_map(m.latest), q)
    }
}

/// What a key reads as in a base map overlaid with a write map.
pub open spec fn overlay_get(base: Map<u64, Seq<u8>>, w: Map<u64, Seq<u8>>, q: u64) -> Option<
    Seq<u8>,
> {
    if w.contains_key(q) {
        Some(w[q])
    } else {
        spec_get(base, q)
    }
}

/// Processing a chunk keeps the state well formed.
pub proof fn lemma_chunk_wf(m: CalcModel, txns: Seq<(Transaction, Seq<(u64, Seq<u8>)>, bool)>)
    requires
        model_wf(m),
    ensures
        model_wf(spec_chunk(m, txns).model),
    decreases txns.len(),
{
    if txns.len() == 0 {
    } else {
        lemma_chunk_wf(m, txns.drop_last());
        let p = spec_chunk(m, txns.drop_last()).model;
        let t = txns.last();
        lemma_apply_output_wf(p, t.1);
        if forces_checkpoint(t.0, t.2) {
            lemma_checkpoint_wf(spec_apply_output(p, t.1));
        }
    }
}

/// Through a whole chunk, the folded view of the working state reads as the
/// base snapshot overlaid with every write of the chunk so far, and every
/// key changed after the latest snapshot carries its last written value in
/// the cache.
proof fn lemma_chunk_content(m: CalcModel, txns: Seq<(Transaction, Seq<(u64, Seq<u8>)>, bool)>)
    requires
        model_wf(m),
        m.after == Seq::<u64>::empty(),
    ensures
        ({
            let m1 = spec_chunk(m, txns).model;
            let w = chunk_writes(txns);
            &&& forall|i: int|
                0 <= i < m1.after.len() ==> to_map(w).contains_key(#[trigger] m1.after[i])
                    && m1.cache[m1.after[i]] == to_map(w)[m1.after[i]]
            &&& forall|q: u64| #[trigger]
                folded_get(m1, w, q) == overlay_get(to_map(m.latest), to_map(w), q)
        }),
    decreases txns.len(),
{
    if txns.len() == 0 {
        let w = chunk_writes(txns);
        assert(to_map(w) =~= Map::<u64, Seq<u8>>::empty());
        assert forall|q: u64| #[trigger]
            folded_get(m, w, q) == overlay_get(to_map(m.latest), to_map(w), q) by {
            assert(!m.after.contains(q));
        }
    } else {
        lemma_chunk_content(m, txns.drop_last());
        lemma_chunk_wf(m, txns.drop_last());
        let p = spec_chunk(m, txns.drop_last()).model;
        let t = txns.last();
        let wp = chunk_writes(txns.drop_last());
        let w = chunk_writes(txns);
        assert(w == wp + t.1);
        lemma_to_map_concat(wp, t.1);
        let m1 = spec_apply_output(p, t.1);
        lemma_apply_output_wf(p, t.1);
        lemma_writes_over_union(p.cache, t.1);
        lemma_merge_keys(p.after, entry_keys(t.1));
        lemma_to_map(t.1);
        // keys of the write set are the keys of its map
        assert forall|k: u64| #[trigger]
            entry_keys(t.1).contains(k) implies to_map(t.1).contains_key(k) by {
            let i = choose|i: int| 0 <= i < entry_keys(t.1).len() && entry_keys(t.1)[i] == k;
            assert(t.1[i].0 == k);
        }
        assert forall|k: u64| #[trigger]
            to_map(t.1).contains_key(k) implies entry_keys(t.1).contains(k) by {
            let i = choose|i: int| 0 <= i < t.1.len() && t.1[i].0 == k;
            assert(entry_keys(t.1)[i] == k);
        }
        // condition on cached values of after-latest keys
        assert forall|i: int| 0 <= i < m1.after.len() implies to_map(w).contains_key(
            #[trigger] m1.after[i],
        ) && m1.cache[m1.after[i]] == to_map(w)[m1.after[i]] by {
            let k = m1.after[i];
            assert(m1.after.contains(k));
            if to_map(t.1).contains_key(k) {
                assert(m1.cache[k] == to_map(t.1)[k]);
                assert(to_map(w)[k] == to_map(t.1)[k]);
            } else {
                assert(p.after.contains(k));
                let j = choose|j: int| 0 <= j < p.after.len() && p.after[j] == k;
                assert(to_map(wp).contains_key(p.after[j]));
                assert(m1.cache[k] == p.cache[k]);
                assert(to_map(w)[k] == to_map(wp)[k]);
            }
        }
        // folded view after the write application
        assert forall|q: u64| #[trigger]
            folded_get(m1, w, q) == overlay_get(to_map(m.latest), to_map(w), q) by {
            if to_map(t.1).contains_key(q) {
                assert(entry_keys(t.1).contains(q));
                assert(m1.after.contains(q));
                assert(to_map(w)[q] == to_map(t.1)[q]);
            } else {
                assert(m1.after.contains(q) <==> p.after.contains(q));
                assert(folded_get(m1, w, q) == folded_get(p, wp, q));
                assert(overlay_get(to_map(m.latest), to_map(w), q) == overlay_get(
                    to_map(m.latest),
                    to_map(wp),
                    q,
                ));
                assert(folded_get(p, wp, q) == overlay_get(to_map(m.latest), to_map(wp), q));
            }
        }
        if forces_checkpoint(t.0, t.2) {
            let m2 = spec_after_checkpoint(m1);
            lemma_checkpoint_wf(m1);
            lemma_updates_keys(m1);
            lemma_apply_updates(m1.latest, spec_updates(m1));
            lemma_writes_over_union(to_map(m1.latest), spec_updates(m1));
            assert(m2 == spec_chunk(m, txns).model);
            assert(forall|i: int|
                0 <= i < m2.after.len() ==> to_map(w).contains_key(#[trigger] m2.after[i])
                    && m2.cache[m2.after[i]] == to_map(w)[m2.after[i]]);
            assert forall|q: u64| #[trigger]
                folded_get(m2, w, q) == overlay_get(to_map(m.latest), to_map(w), q) by {
                assert(!m2.after.contains(q));
                assert(to_map(m2.latest) == to_map(m1.latest).union_prefer_right(
                    to_map(spec_updates(m1)),
                ));
                if m1.after.contains(q) {
                    assert(to_map(spec_updates(m1)).contains_key(q));
                    assert(to_map(m2.latest)[q] == to_map(spec_updates(m1))[q]);
                    assert(to_map(spec_updates(m1))[q] == m1.cache[q]);
                    let j = choose|j: int| 0 <= j < m1.after.len() && m1.after[j] == q;
                    assert(m1.cache[q] == to_map(w)[q]);
                    assert(folded_get(m1, w, q) == Some(to_map(w)[q]));
                } else {
                    assert(!to_map(spec_updates(m1)).contains_key(q));
                    assert(spec_get(to_map(m2.latest), q) == spec_get(to_map(m1.latest), q));
                    assert(folded_get(m1, w, q) == spec_get(to_map(m1.latest), q));
                }
                assert(folded_get(m2, w, q) == folded_get(m1, w, q));
                assert(folded_get(m1, w, q) == overlay_get(to_map(m.latest), to_map(w), q));
            }
        }
    }
}

/// Full-recompute equivalence: when the base snapshot is what applying some
/// prior batch to the empty snapshot gives, then the snapshot the final fold
/// of a chunk builds is exactly the one built by applying the prior batch
/// and the chunk's flattened writes to the empty snapshot in a single batch
/// — and its root digest therefore equals the from-scratch root digest.
pub proof fn lemma_full_recompute_equivalence(
    m: CalcModel,
    txns: Seq<(Transaction, Seq<(u64, Seq<u8>)>, bool)>,
    prior: Seq<(u64, Seq<u8>)>,
)
    requires
        model_wf(m),
        m.after == Seq::<u64>::empty(),
        m.latest == apply_updates(Seq::<(u64, Seq<u8>)>::empty(), prior),
    ensures
        ({
            let end = spec_chunk(m, txns).model;
            let once = apply_updates(
                Seq::<(u64, Seq<u8>)>::empty(),
                prior + chunk_writes(txns),
            );
            &&& spec_finish(end).current == once
            &&& digest_of(enc_entries(spec_finish(end).current)) == digest_of(enc_entries(once))
        }),
{
    let end = spec_chunk(m, txns).model;
    let w = chunk_writes(txns);
    let empty = Seq::<(u64, Seq<u8>)>::empty();
    let once = apply_updates(empty, prior + w);
    lemma_chunk_wf(m, txns);
    lemma_chunk_content(m, txns);
    lemma_updates_keys(end);
    lemma_apply_updates(end.latest, spec_updates(end));
    lemma_writes_over_union(to_map(end.latest), spec_updates(end));
    let fin = spec_new_tree(end);
    assert(spec_finish(end).current == fin);
    // the final fold reads as the folded view of the end state
    assert forall|q: u64| #[trigger]
        spec_get(to_map(fin), q) == folded_get(end, w, q) by {
        if end.after.contains(q) {
            assert(to_map(spec_updates(end)).contains_key(q));
            assert(to_map(fin)[q] == to_map(spec_updates(end))[q]);
            assert(to_map(spec_updates(end))[q] == end.cache[q]);
            let j = choose|j: int| 0 <= j < end.after.len() && end.after[j] == q;
            assert(end.cache[q] == to_map(w)[q]);
        } else {
            assert(!to_map(spec_updates(end)).contains_key(q));
        }
    }
    // the one-shot tree reads as the base overlaid with the chunk's writes
    lemma_apply_updates_concat(empty, prior, w);
    assert(once == apply_updates(m.latest, w));
    lemma_apply_updates(m.latest, w);
    lemma_writes_over_union(to_map(m.latest), w);
    assert forall|q: u64| #[trigger]
        spec_get(to_map(once), q) == overlay_get(to_map(m.latest), to_map(w), q) by {
        if to_map(w).contains_key(q) {
            assert(to_map(once)[q] == to_map(w)[q]);
        }
    }
    // equal contents, canonical order on both sides: the same entry list
    assert forall|q: u64|
        to_map(fin).contains_key(q) <==> #[trigger] to_map(once).contains_key(q) by {
        assert(spec_get(to_map(fin), q) == spec_get(to_map(once), q));
    }
    assert forall|q: u64| #[trigger] to_map(fin).contains_key(q) implies to_map(fin)[q] == to_map(
        once,
    )[q] by {
        assert(spec_get(to_map(fin), q) == spec_get(to_map(once), q));
    }
    assert(to_map(fin) =~= to_map(once));
    lemma_apply_updates(empty, prior + w);
    lemma_sorted_same_entries(fin, once);
}

} // verus!
