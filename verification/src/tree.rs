//! The authenticated snapshot: a persistent, canonically ordered key/value
//! tree whose root digest is a function of its contents alone.
//!
//! A snapshot is immutable; a batch update returns a new snapshot and leaves
//! the old one valid, so a base snapshot can stay alive for concurrent
//! readers while new checkpoints are layered on top of it.

#![verifier::loop_isolation(false)]

use vstd::prelude::*;

use crate::bytes::push_u64_le;
use crate::bytes::u64_le_bytes;
use crate::hash::digest32;
use crate::hash::digest_of;
use crate::kv::copy_bytes;
use crate::kv::entries_view;
use crate::kv::lemma_to_map;
use crate::kv::opt_bytes_view;
use crate::kv::spec_get;
use crate::kv::to_map;
use crate::kv::unique_entry_keys;
use crate::kv::KvMap;

verus! {

/// Entry keys grow strictly from left to right.
pub open spec fn strictly_sorted(s: Seq<(u64, Seq<u8>)>) -> bool {
    forall|i: int, j: int| 0 <= i < j < s.len() ==> s[i].0 < s[j].0
}

/// Strict order leaves no room for a repeated key.
pub proof fn lemma_sorted_unique(s: Seq<(u64, Seq<u8>)>)
    requires
        strictly_sorted(s),
    ensures
        unique_entry_keys(s),
{
}

/// The position at which key `k` lives or would be inserted.
pub open spec fn insert_pos(s: Seq<(u64, Seq<u8>)>, k: u64) -> int
    decreases s.len(),
{
    if s.len() == 0 {
        0
    } else if s[0].0 >= k {
        0
    } else {
        1 + insert_pos(s.drop_first(), k)
    }
}

/// What `insert_pos` finds: the boundary between smaller and not-smaller keys.
pub proof fn lemma_insert_pos(s: Seq<(u64, Seq<u8>)>, k: u64)
    ensures
        0 <= insert_pos(s, k) <= s.len(),
        forall|j: int| 0 <= j < insert_pos(s, k) ==> s[j].0 < k,
        insert_pos(s, k) < s.len() ==> s[insert_pos(s, k)].0 >= k,
    decreases s.len(),
{
    if s.len() == 0 {
    } else if s[0].0 >= k {
    } else {
        let d = s.drop_first();
        lemma_insert_pos(d, k);
        let p = insert_pos(d, k);
        assert(insert_pos(s, k) == 1 + p);
        assert forall|j: int| 0 <= j < insert_pos(s, k) implies s[j].0 < k by {
            if j > 0 {
                assert(d[j - 1] == s[j]);
            }
        }
        if p < d.len() {
            assert(d[p] == s[p + 1]);
        }
    }
}

/// The boundary determines the position: any index with only smaller keys to
/// its left and a not-smaller key at it is `insert_pos`.
pub proof fn lemma_insert_pos_unique(s: Seq<(u64, Seq<u8>)>, k: u64, p: int)
    requires
        0 <= p <= s.len(),
        forall|j: int| 0 <= j < p ==> s[j].0 < k,
        p < s.len() ==> s[p].0 >= k,
    ensures
        insert_pos(s, k) == p,
    decreases s.len(),
{
    if s.len() == 0 {
    } else if s[0].0 >= k {
        if p > 0 {
            assert(s[0].0 < k);
        }
    } else {
        let d = s.drop_first();
        assert(p > 0) by {
            if p == 0 {
                assert(s[0].0 >= k);
            }
        }
        assert(forall|j: int| 0 <= j < p - 1 ==> #[trigger] d[j].0 == s[j + 1].0);
        if p - 1 < d.len() {
            assert(d[p - 1] == s[p]);
        }
        lemma_insert_pos_unique(d, k, p - 1);
    }
}

/// One key/value pair layered onto a sorted entry list.
pub open spec fn sorted_insert(s: Seq<(u64, Seq<u8>)>, k: u64, v: Seq<u8>) -> Seq<(u64, Seq<u8>)> {
    let p = insert_pos(s, k);
    if p < s.len() && s[p].0 == k {
        s.update(p, (k, v))
    } else {
        s.insert(p, (k, v))
    }
}

/// Replacing the entry that holds `k` updates the map by one binding.
proof fn lemma_update_map(s: Seq<(u64, Seq<u8>)>, p: int, k: u64, v: Seq<u8>)
    requires
        unique_entry_keys(s),
        0 <= p < s.len(),
        s[p].0 == k,
    ensures
        unique_entry_keys(s.update(p, (k, v))),
        to_map(s.update(p, (k, v))) == to_map(s).insert(k, v),
{
    let r = s.update(p, (k, v));
    lemma_to_map(s);
    assert(unique_entry_keys(r));
    lemma_to_map(r);
    assert forall|q: u64| #[trigger]
        to_map(r).contains_key(q) implies to_map(s).insert(k, v).contains_key(q) by {
        let i = choose|i: int| 0 <= i < r.len() && r[i].0 == q;
        if i != p {
            assert(s[i].0 == q);
        }
    }
    assert forall|q: u64| #[trigger]
        to_map(s).insert(k, v).contains_key(q) implies to_map(r).contains_key(q) by {
        if q == k {
            assert(r[p].0 == k);
        } else {
            let i = choose|i: int| 0 <= i < s.len() && s[i].0 == q;
            assert(r[i].0 == q);
        }
    }
    assert forall|q: u64| to_map(r).contains_key(q) implies to_map(r)[q] == to_map(s).insert(
        k,
        v,
    )[q] by {
        let i = choose|i: int| 0 <= i < r.len() && r[i].0 == q;
        assert(to_map(r)[r[i].0] == r[i].1);
        if i == p {
            assert(q == k);
        } else {
            assert(r[i] == s[i]);
            assert(s[i].0 != s[p].0);
            assert(to_map(s)[s[i].0] == s[i].1);
        }
    }
    assert(to_map(r) =~= to_map(s).insert(k, v));
}

/// Inserting an absent key at any position adds one binding to the map.
proof fn lemma_insert_map(s: Seq<(u64, Seq<u8>)>, p: int, k: u64, v: Seq<u8>)
    requires
        unique_entry_keys(s),
        0 <= p <= s.len(),
        forall|i: int| 0 <= i < s.len() ==> s[i].0 != k,
    ensures
        unique_entry_keys(s.insert(p, (k, v))),
        to_map(s.insert(p, (k, v))) == to_map(s).insert(k, v),
{
    let r = s.insert(p, (k, v));
    assert(forall|i: int| 0 <= i < p ==> r[i] == s[i]);
    assert(r[p] == (k, v));
    assert(forall|i: int| p < i < r.len() ==> r[i] == s[i - 1]);
    lemma_to_map(s);
    assert(unique_entry_keys(r)) by {
        assert forall|i: int, j: int| 0 <= i < j < r.len() implies r[i].0 != r[j].0 by {
            if i == p {
                assert(r[j] == s[j - 1]);
            } else if j == p {
                assert(r[i] == s[i]);
            }
        }
    }
    lemma_to_map(r);
    assert forall|q: u64| #[trigger]
        to_map(r).contains_key(q) implies to_map(s).insert(k, v).contains_key(q) by {
        let i = choose|i: int| 0 <= i < r.len() && r[i].0 == q;
        if i < p {
            assert(s[i].0 == q);
        } else if i > p {
            assert(s[i - 1].0 == q);
        }
    }
    assert forall|q: u64| #[trigger]
        to_map(s).insert(k, v).contains_key(q) implies to_map(r).contains_key(q) by {
        if q == k {
            assert(r[p].0 == k);
        } else {
            let i = choose|i: int| 0 <= i < s.len() && s[i].0 == q;
            if i < p {
                assert(r[i].0 == q);
            } else {
                assert(r[i + 1].0 == q);
            }
        }
    }
    assert forall|q: u64| to_map(r).contains_key(q) implies to_map(r)[q] == to_map(s).insert(
        k,
        v,
    )[q] by {
        let i = choose|i: int| 0 <= i < r.len() && r[i].0 == q;
        assert(to_map(r)[r[i].0] == r[i].1);
        if i == p {
            assert(q == k);
        } else {
            let si: int = if i < p {
                i
            } else {
                i - 1
            };
            assert(r[i] == s[si]);
            assert(s[si].0 == q);
            assert(q != k);
            assert(to_map(s)[s[si].0] == s[si].1);
        }
    }
    assert(to_map(r) =~= to_map(s).insert(k, v));
}

/// `sorted_insert` keeps the order strict and updates the map by one binding.
pub proof fn lemma_sorted_insert(s: Seq<(u64, Seq<u8>)>, k: u64, v: Seq<u8>)
    requires
        strictly_sorted(s),
    ensures
        strictly_sorted(sorted_insert(s, k, v)),
        to_map(sorted_insert(s, k, v)) == to_map(s).insert(k, v),
{
    lemma_sorted_unique(s);
    lemma_insert_pos(s, k);
    let p = insert_pos(s, k);
    let r = sorted_insert(s, k, v);
    if p < s.len() && s[p].0 == k {
        lemma_update_map(s, p, k, v);
        assert(strictly_sorted(r));
    } else {
        assert forall|i: int| 0 <= i < s.len() implies s[i].0 != k by {
            if i >= p {
                if s[p].0 == k {
                    assert(p < s.len());
                }
                if i > p {
                    assert(s[p].0 < s[i].0 || s[p].0 >= k);
                }
            }
        }
        assert(forall|i: int| p <= i < s.len() ==> s[i].0 > k) by {
            assert forall|i: int| p <= i < s.len() implies s[i].0 > k by {
                assert(s[p].0 >= k && s[p].0 != k);
                if i > p {
                    assert(s[p].0 < s[i].0);
                }
            }
        }
        lemma_insert_map(s, p, k, v);
        assert(forall|i: int| 0 <= i < p ==> r[i] == s[i]);
        assert(r[p] == (k, v));
        assert(forall|i: int| p < i < r.len() ==> r[i] == s[i - 1]);
        assert forall|i: int, j: int| 0 <= i < j < r.len() implies r[i].0 < r[j].0 by {
            if i == p {
                assert(r[j] == s[j - 1]);
            } else if j == p {
                assert(r[i] == s[i]);
            }
        }
    }
}

/// A batch of updates layered onto a sorted entry list, in order.
pub open spec fn apply_updates(
    s: Seq<(u64, Seq<u8>)>,
    us: Seq<(u64, Seq<u8>)>,
) -> Seq<(u64, Seq<u8>)>
    decreases us.len(),
{
    if us.len() == 0 {
        s
    } else {
        sorted_insert(apply_updates(s, us.drop_last()), us.last().0, us.last().1)
    }
}

/// A batch of bindings written over a map, later bindings winning.
pub open spec fn writes_over(m: Map<u64, Seq<u8>>, us: Seq<(u64, Seq<u8>)>) -> Map<u64, Seq<u8>>
    decreases us.len(),
{
    if us.len() == 0 {
        m
    } else {
        writes_over(m, us.drop_last()).insert(us.last().0, us.last().1)
    }
}

/// Applying a batch keeps the order strict and writes the batch over the map.
pub proof fn lemma_apply_updates(s: Seq<(u64, Seq<u8>)>, us: Seq<(u64, Seq<u8>)>)
    requires
        strictly_sorted(s),
    ensures
        strictly_sorted(apply_updates(s, us)),
        to_map(apply_updates(s, us)) == writes_over(to_map(s), us),
    decreases us.len(),
{
    if us.len() == 0 {
    } else {
        lemma_apply_updates(s, us.drop_last());
        lemma_sorted_insert(apply_updates(s, us.drop_last()), us.last().0, us.last().1);
    }
}

/// Applying two batches in a row is applying their concatenation.
pub proof fn lemma_apply_updates_concat(
    s: Seq<(u64, Seq<u8>)>,
    a: Seq<(u64, Seq<u8>)>,
    b: Seq<(u64, Seq<u8>)>,
)
    ensures
        apply_updates(s, a + b) == apply_updates(apply_updates(s, a), b),
    decreases b.len(),
{
    if b.len() == 0 {
        assert(a + b =~= a);
    } else {
        lemma_apply_updates_concat(s, a, b.drop_last());
        assert((a + b).drop_last() =~= a + b.drop_last());
        assert((a + b).last() == b.last());
    }
}

/// Dropping the last entry of a unique-keyed list removes its binding.
pub proof fn lemma_to_map_drop_last(s: Seq<(u64, Seq<u8>)>)
    requires
        unique_entry_keys(s),
        s.len() > 0,
    ensures
        to_map(s.drop_last()) == to_map(s).remove(s.last().0),
{
    let d = s.drop_last();
    lemma_to_map(d);
    if to_map(d).contains_key(s.last().0) {
        let i = choose|i: int| 0 <= i < d.len() && d[i].0 == s.last().0;
        assert(s[i].0 == s[s.len() - 1].0);
        assert(false);
    }
    assert(to_map(d) =~= to_map(s).remove(s.last().0));
}

/// Strictly sorted entry lists standing for the same map are the same list.
pub proof fn lemma_sorted_same_entries(s1: Seq<(u64, Seq<u8>)>, s2: Seq<(u64, Seq<u8>)>)
    requires
        strictly_sorted(s1),
        strictly_sorted(s2),
        to_map(s1) == to_map(s2),
    ensures
        s1 == s2,
    decreases s1.len(),
{
    lemma_sorted_unique(s1);
    lemma_sorted_unique(s2);
    lemma_to_map(s1);
    lemma_to_map(s2);
    if s1.len() == 0 {
        if s2.len() > 0 {
            assert(s2[0].0 == s2[0].0);
            assert(to_map(s2).contains_key(s2[0].0));
            assert(false);
        }
        assert(s1 =~= s2);
    } else {
        assert(s1[s1.len() - 1].0 == s1.last().0);
        assert(to_map(s1).contains_key(s1.last().0));
        if s2.len() == 0 {
            assert(false);
        }
        let k1 = s1.last().0;
        let k2 = s2.last().0;
        assert(s2[s2.len() - 1].0 == k2);
        assert(to_map(s2).contains_key(k2));
        let j = choose|j: int| 0 <= j < s2.len() && s2[j].0 == k1;
        assert(k1 <= k2) by {
            if j < s2.len() - 1 {
                assert(s2[j].0 < s2[s2.len() - 1].0);
            }
        }
        let i = choose|i: int| 0 <= i < s1.len() && s1[i].0 == k2;
        assert(k2 <= k1) by {
            if i < s1.len() - 1 {
                assert(s1[i].0 < s1[s1.len() - 1].0);
            }
        }
        assert(k1 == k2);
        assert(to_map(s1)[s1[s1.len() - 1].0] == s1[s1.len() - 1].1);
        assert(to_map(s2)[s2[s2.len() - 1].0] == s2[s2.len() - 1].1);
        assert(s1.last().1 == s2.last().1);
        lemma_to_map_drop_last(s1);
        lemma_to_map_drop_last(s2);
        assert(strictly_sorted(s1.drop_last()));
        assert(strictly_sorted(s2.drop_last()));
        lemma_sorted_same_entries(s1.drop_last(), s2.drop_last());
        assert(s1.len() == s2.len());
        assert forall|q: int| 0 <= q < s1.len() implies s1[q] == s2[q] by {
            if q < s1.len() - 1 {
                assert(s1.drop_last()[q] == s2.drop_last()[q]);
                assert(s1.drop_last()[q] == s1[q]);
                assert(s2.drop_last()[q] == s2[q]);
            } else {
                assert(s1[q] == s1.last());
                assert(s2[q] == s2.last());
                assert(s1.last().0 == s2.last().0);
                assert(s1.last() == s2.last());
            }
        }
        assert(s1 =~= s2);
    }
}

/// The canonical byte encoding of one entry: key, value length, value bytes.
pub open spec fn enc_entry(k: u64, v: Seq<u8>) -> Seq<u8> {
    u64_le_bytes(k) + u64_le_bytes(v.len() as u64) + v
}

/// The canonical byte encoding of a whole entry list.
pub open spec fn enc_entries(s: Seq<(u64, Seq<u8>)>) -> Seq<u8>
    decreases s.len(),
{
    if s.len() == 0 {
        Seq::empty()
    } else {
        enc_entries(s.drop_last()) + enc_entry(s.last().0, s.last().1)
    }
}

/// The leaf digests of the entries of `s` whose binding differs from `m`.
pub open spec fn diff_hashes(s: Seq<(u64, Seq<u8>)>, m: Map<u64, Seq<u8>>) -> Seq<(u64, Seq<u8>)>
    decreases s.len(),
{
    if s.len() == 0 {
        Seq::empty()
    } else {
        let rest = diff_hashes(s.drop_last(), m);
        let e = s.last();
        if m.contains_key(e.0) && m[e.0] == e.1 {
            rest
        } else {
            rest.push((e.0, digest_of(enc_entry(e.0, e.1))))
        }
    }
}

/// Every key of `diff_hashes(s, m)` is a key of `s`, and with unique keys in
/// `s` the difference has unique keys too.
pub proof fn lemma_diff_hashes_unique(s: Seq<(u64, Seq<u8>)>, m: Map<u64, Seq<u8>>)
    requires
        unique_entry_keys(s),
    ensures
        unique_entry_keys(diff_hashes(s, m)),
        forall|i: int|
            0 <= i < diff_hashes(s, m).len() ==> exists|j: int|
                0 <= j < s.len() && s[j].0 == #[trigger] diff_hashes(s, m)[i].0,
    decreases s.len(),
{
    if s.len() == 0 {
    } else {
        let d = s.drop_last();
        lemma_diff_hashes_unique(d, m);
        let rest = diff_hashes(d, m);
        let r = diff_hashes(s, m);
        assert forall|i: int| 0 <= i < r.len() implies exists|j: int|
            0 <= j < s.len() && s[j].0 == #[trigger] r[i].0 by {
            let k = r[i].0;
            if i < rest.len() {
                assert(rest[i].0 == k);
                let j = choose|j: int| 0 <= j < d.len() && d[j].0 == rest[i].0;
                assert(s[j].0 == k);
            } else {
                assert(s[s.len() - 1].0 == k);
            }
        }
        assert forall|i: int, j: int| 0 <= i < j < r.len() implies r[i].0 != r[j].0 by {
            if j == rest.len() && r.len() > rest.len() {
                assert(rest[i].0 == r[i].0);
                if r[i].0 == s.last().0 {
                    let q = choose|q: int| 0 <= q < d.len() && d[q].0 == rest[i].0;
                    assert(s[q].0 == s[s.len() - 1].0);
                    assert(false);
                }
            }
        }
    }
}

/// An immutable, canonically ordered snapshot of the ledger state.
pub struct TreeSnapshot {
    pub entries: Vec<(u64, Vec<u8>)>,
}

impl View for TreeSnapshot {
    type V = Seq<(u64, Seq<u8>)>;

    open spec fn view(&self) -> Seq<(u64, Seq<u8>)> {
        entries_view(self.entries@)
    }
}

impl TreeSnapshot {
    /// The mathematical map this snapshot stands for.
    pub open spec fn map_view(&self) -> Map<u64, Seq<u8>> {
        to_map(self@)
    }

    /// Entry keys grow strictly from left to right.
    pub open spec fn wf(&self) -> bool {
        strictly_sorted(self@)
    }

    /// The empty snapshot.
    pub fn new() -> (r: Self)
        ensures
            r@ == Seq::<(u64, Seq<u8>)>::empty(),
            r.wf(),
    {
        let r = TreeSnapshot { entries: Vec::new() };
        proof {
            assert(r@ =~= Seq::<(u64, Seq<u8>)>::empty());
        }
        r
    }

    /// The value bound to `k`, copied out, or `None` when `k` is absent.
    pub fn get_cloned(&self, k: u64) -> (r: Option<Vec<u8>>)
        requires
            self.wf(),
        ensures
            opt_bytes_view(r) == spec_get(self.map_view(), k),
    {
        proof {
            lemma_sorted_unique(self@);
            lemma_to_map(self@);
        }
        let n = self.entries.len();
        let mut i: usize = 0;
        while i < n
            invariant
                i <= n,
                forall|j: int| 0 <= j < i ==> self@[j].0 != k,
            decreases n - i,
        {
            if self.entries[i].0 == k {
                let v = copy_bytes(&self.entries[i].1);
                proof {
                    assert(self@[i as int].0 == k);
                    assert(self.map_view()[k] == self@[i as int].1);
                }
                return Some(v);
            }
            i += 1;
        }
        proof {
            if self.map_view().contains_key(k) {
                let j = choose|j: int| 0 <= j < self@.len() && self@[j].0 == k;
                assert(false);
            }
        }
        None
    }

    /// A separate snapshot with the same entries.
    pub fn duplicate(&self) -> (r: Self)
        ensures
            r@ == self@,
    {
        let mut entries: Vec<(u64, Vec<u8>)> = Vec::new();
        let n = self.entries.len();
        let mut i: usize = 0;
        while i < n
            invariant
                i <= n,
                entries_view(entries@) == self@.take(i as int),
            decreases n - i,
        {
            let k = self.entries[i].0;
            let v = copy_bytes(&self.entries[i].1);
            entries.push((k, v));
            proof {
                assert(entries_view(entries@) =~= self@.take(i + 1));
            }
            i += 1;
        }
        proof {
            assert(self@.take(n as int) =~= self@);
        }
        TreeSnapshot { entries }
    }

    /// Layers the updates, in order, over this snapshot; the result is a new
    /// snapshot and this one stays as it was.
    pub fn batch_update(&self, updates: &Vec<(u64, Vec<u8>)>) -> (r: Self)
        requires
            self.wf(),
        ensures
            r@ == apply_updates(self@, entries_view(updates@)),
            r.wf(),
            r.map_view() == writes_over(self.map_view(), entries_view(updates@)),
    {
        let base = self.duplicate();
        let mut entries = base.entries;
        let ghost us = entries_view(updates@);
        let n = updates.len();
        let mut i: usize = 0;
        while i < n
            invariant
                i <= n,
                entries_view(entries@) == apply_updates(self@, us.take(i as int)),
                strictly_sorted(entries_view(entries@)),
            decreases n - i,
        {
            let k = updates[i].0;
            let v = copy_bytes(&updates[i].1);
            proof {
                lemma_sorted_insert(entries_view(entries@), k, v@);
            }
            insert_entry(&mut entries, k, v);
            proof {
                assert(us.take(i + 1).drop_last() =~= us.take(i as int));
                assert(us.take(i + 1).last() == us[i as int]);
                assert(us[i as int] == (updates@[i as int].0, updates@[i as int].1@));
            }
            i += 1;
        }
        proof {
            assert(us.take(n as int) =~= us);
            lemma_apply_updates(self@, us);
        }
        TreeSnapshot { entries }
    }

    /// The root digest: the digest of the canonical encoding of the contents.
    pub fn root_hash(&self) -> (r: Vec<u8>)
        ensures
            r@ == digest_of(enc_entries(self@)),
            r@.len() == 32,
    {
        let mut bytes: Vec<u8> = Vec::new();
        let n = self.entries.len();
        let mut i: usize = 0;
        while i < n
            invariant
                i <= n,
                bytes@ == enc_entries(self@.take(i as int)),
            decreases n - i,
        {
            push_u64_le(&mut bytes, self.entries[i].0);
            push_u64_le(&mut bytes, self.entries[i].1.len() as u64);
            bytes.extend_from_slice(self.entries[i].1.as_slice());
            proof {
                assert(self@.take(i + 1).drop_last() =~= self@.take(i as int));
                assert(self@.take(i + 1).last() == self@[i as int]);
                assert(bytes@ =~= enc_entries(self@.take(i + 1)));
            }
            i += 1;
        }
        proof {
            assert(self@.take(n as int) =~= self@);
        }
        digest32(&bytes)
    }

    /// The leaf digests of every binding of this snapshot that differs from
    /// the reference snapshot.
    pub fn new_node_hashes_since(&self, reference: &TreeSnapshot) -> (r: KvMap)
        requires
            self.wf(),
            reference.wf(),
        ensures
            r@ == diff_hashes(self@, reference.map_view()),
            r.wf(),
    {
        proof {
            lemma_sorted_unique(self@);
            lemma_diff_hashes_unique(self@, reference.map_view());
        }
        let mut out: Vec<(u64, Vec<u8>)> = Vec::new();
        let n = self.entries.len();
        let mut i: usize = 0;
        while i < n
            invariant
                i <= n,
                entries_view(out@) == diff_hashes(self@.take(i as int), reference.map_view()),
            decreases n - i,
        {
            let k = self.entries[i].0;
            let same = match reference.get_cloned(k) {
                Some(rv) => bytes_eq(&rv, &self.entries[i].1),
                None => false,
            };
            if !same {
                let h = leaf_hash(k, &self.entries[i].1);
                out.push((k, h));
            }
            proof {
                assert(self@.take(i + 1).drop_last() =~= self@.take(i as int));
                assert(self@.take(i + 1).last() == self@[i as int]);
                assert(entries_view(out@) =~= diff_hashes(
                    self@.take(i + 1),
                    reference.map_view(),
                ));
            }
            i += 1;
        }
        proof {
            assert(self@.take(n as int) =~= self@);
        }
        let r = KvMap { entries: out };
        proof {
            lemma_diff_hashes_unique(self@, reference.map_view());
        }
        r
    }
}

/// Whether two byte payloads are equal.
pub fn bytes_eq(a: &Vec<u8>, b: &Vec<u8>) -> (r: bool)
    ensures
        r == (a@ == b@),
{
    let n = a.len();
    if n != b.len() {
        proof {
            assert(a@.len() != b@.len());
        }
        return false;
    }
    let mut i: usize = 0;
    while i < n
        invariant
            i <= n,
            forall|j: int| 0 <= j < i ==> a@[j] == b@[j],
        decreases n - i,
    {
        if a[i] != b[i] {
            return false;
        }
        i += 1;
    }
    proof {
        assert(a@ =~= b@);
    }
    true
}

/// The digest of one entry's canonical encoding.
pub fn leaf_hash(k: u64, v: &Vec<u8>) -> (r: Vec<u8>)
    ensures
        r@ == digest_of(enc_entry(k, v@)),
        r@.len() == 32,
{
    let mut bytes: Vec<u8> = Vec::new();
    push_u64_le(&mut bytes, k);
    push_u64_le(&mut bytes, v.len() as u64);
    bytes.extend_from_slice(v.as_slice());
    proof {
        assert(bytes@ =~= enc_entry(k, v@));
    }
    digest32(&bytes)
}

/// Layers one key/value pair into a sorted entry list, in place.
fn insert_entry(entries: &mut Vec<(u64, Vec<u8>)>, k: u64, v: Vec<u8>)
    requires
        strictly_sorted(entries_view(old(entries)@)),
    ensures
        entries_view(final(entries)@) == sorted_insert(entries_view(old(entries)@), k, v@),
{
    let ghost orig = entries_view(entries@);
    proof {
        lemma_insert_pos(orig, k);
    }
    let n = entries.len();
    let mut i: usize = 0;
    while i < n && entries[i].0 < k
        invariant
            i <= n,
            forall|j: int| 0 <= j < i ==> orig[j].0 < k,
            entries_view(entries@) == orig,
        decreases n - i,
    {
        i += 1;
    }
    proof {
        lemma_insert_pos_unique(orig, k, i as int);
    }
    if i < n && entries[i].0 == k {
        entries.remove(i);
        entries.insert(i, (k, v));
        proof {
            assert(entries_view(entries@) =~= orig.update(i as int, (k, v@)));
        }
    } else {
        entries.insert(i, (k, v));
        proof {
            assert(entries_view(entries@) =~= orig.insert(i as int, (k, v@)));
        }
    }
}

} // verus!
