//! Flat key/value containers: an insertion-ordered key set and an
//! insertion-ordered key/value map, both with unique keys.
//!
//! Keys are plain `u64` addresses; values are opaque byte payloads.

#![verifier::loop_isolation(false)]

use vstd::prelude::*;

use rayon::iter::IndexedParallelIterator;
use rayon::iter::IntoParallelRefIterator;
use rayon::iter::ParallelIterator;

verus! {

/// The view of an optional byte payload.
pub open spec fn opt_bytes_view(o: Option<Vec<u8>>) -> Option<Seq<u8>> {
    match o {
        Some(v) => Some(v@),
        None => None,
    }
}

/// Looks a key up in a mathematical map, as an `Option`.
pub open spec fn spec_get(m: Map<u64, Seq<u8>>, k: u64) -> Option<Seq<u8>> {
    if m.contains_key(k) {
        Some(m[k])
    } else {
        None
    }
}

/// `s` holds no key twice.
pub open spec fn unique_keys(s: Seq<u64>) -> bool {
    forall|i: int, j: int| 0 <= i < j < s.len() ==> s[i] != s[j]
}

/// Adds `k` at the end of `s` unless it is already present.
pub open spec fn add_key(s: Seq<u64>, k: u64) -> Seq<u64> {
    if s.contains(k) {
        s
    } else {
        s.push(k)
    }
}

/// Adds every key of `ks`, in order, to `s`.
pub open spec fn merge_keys(s: Seq<u64>, ks: Seq<u64>) -> Seq<u64>
    decreases ks.len(),
{
    if ks.len() == 0 {
        s
    } else {
        add_key(merge_keys(s, ks.drop_last()), ks.last())
    }
}

/// Merging keeps keys unique and the key set grows by exactly `ks`.
pub proof fn lemma_merge_keys(s: Seq<u64>, ks: Seq<u64>)
    requires
        unique_keys(s),
    ensures
        unique_keys(merge_keys(s, ks)),
        forall|k: u64| #![trigger merge_keys(s, ks).contains(k)]
            merge_keys(s, ks).contains(k) <==> s.contains(k) || ks.contains(k),
    decreases ks.len(),
{
    if ks.len() == 0 {
    } else {
        lemma_merge_keys(s, ks.drop_last());
        let m = merge_keys(s, ks.drop_last());
        assert forall|k: u64| merge_keys(s, ks).contains(k) implies s.contains(k) || ks.contains(
            k,
        ) by {
            if m.contains(k) {
                if ks.drop_last().contains(k) {
                    let i = choose|i: int| 0 <= i < ks.drop_last().len() && ks.drop_last()[i] == k;
                    assert(ks[i] == k);
                }
            } else {
                assert(add_key(m, ks.last()) == m.push(ks.last()));
                assert(k == ks.last());
            }
        }
        assert forall|k: u64| s.contains(k) || ks.contains(k) implies merge_keys(s, ks).contains(
            k,
        ) by {
            let a = add_key(m, ks.last());
            if s.contains(k) || ks.drop_last().contains(k) {
                assert(m.contains(k));
                let i = choose|i: int| 0 <= i < m.len() && m[i] == k;
                assert(a[i] == k);
                assert(a.contains(k));
            } else {
                let i = choose|i: int| 0 <= i < ks.len() && ks[i] == k;
                if i < ks.len() - 1 {
                    assert(ks.drop_last()[i] == k);
                    assert(false);
                } else {
                    assert(ks.last() == k);
                    if m.contains(k) {
                    } else {
                        assert(a == m.push(k));
                        assert(a[a.len() - 1] == k);
                    }
                }
            }
        }
        assert(unique_keys(merge_keys(s, ks)));
    }
}

/// An insertion-ordered set of state keys.
pub struct KeySet {
    pub keys: Vec<u64>,
}

impl View for KeySet {
    type V = Seq<u64>;

    open spec fn view(&self) -> Seq<u64> {
        self.keys@
    }
}

impl KeySet {
    /// The set holds no key twice.
    pub open spec fn wf(&self) -> bool {
        unique_keys(self@)
    }

    /// An empty key set.
    pub fn new() -> (r: Self)
        ensures
            r@ == Seq::<u64>::empty(),
            r.wf(),
    {
        KeySet { keys: Vec::new() }
    }

    /// The number of keys held.
    pub fn len(&self) -> (r: usize)
        ensures
            r == self@.len(),
    {
        self.keys.len()
    }

    /// The key at position `i`, in insertion order.
    pub fn key_at(&self, i: usize) -> (r: u64)
        requires
            i < self@.len(),
        ensures
            r == self@[i as int],
    {
        self.keys[i]
    }

    /// Whether `k` is in the set.
    pub fn contains(&self, k: u64) -> (r: bool)
        ensures
            r == self@.contains(k),
    {
        let n = self.keys.len();
        let mut i: usize = 0;
        while i < n
            invariant
                i <= n,
                forall|j: int| 0 <= j < i ==> self@[j] != k,
            decreases n - i,
        {
            if self.keys[i] == k {
                proof {
                    assert(self@[i as int] == k);
                    assert(self@.contains(k));
                }
                return true;
            }
            i += 1;
        }
        false
    }

    /// Adds `k` unless it is already present.
    pub fn insert(&mut self, k: u64)
        requires
            old(self).wf(),
        ensures
            final(self)@ == add_key(old(self)@, k),
            final(self).wf(),
    {
        if !self.contains(k) {
            self.keys.push(k);
        }
    }

    /// A separate set with the same keys in the same order.
    pub fn duplicate(&self) -> (r: Self)
        ensures
            r@ == self@,
    {
        let mut keys: Vec<u64> = Vec::new();
        let n = self.keys.len();
        let mut i: usize = 0;
        while i < n
            invariant
                i <= n,
                keys@ == self@.take(i as int),
            decreases n - i,
        {
            keys.push(self.keys[i]);
            proof {
                assert(keys@ =~= self@.take(i + 1));
            }
            i += 1;
        }
        proof {
            assert(self@.take(n as int) =~= self@);
        }
        KeySet { keys }
    }
}

/// Copies a byte payload.
pub fn copy_bytes(v: &Vec<u8>) -> (r: Vec<u8>)
    ensures
        r@ == v@,
{
    let mut r: Vec<u8> = Vec::new();
    let n = v.len();
    let mut i: usize = 0;
    while i < n
        invariant
            i <= n,
            r@ == v@.take(i as int),
        decreases n - i,
    {
        r.push(v[i]);
        proof {
            assert(r@ =~= v@.take(i + 1));
        }
        i += 1;
    }
    proof {
        assert(v@.take(n as int) =~= v@);
    }
    r
}

/// An insertion-ordered flat map from state key to byte payload.
pub struct KvMap {
    pub entries: Vec<(u64, Vec<u8>)>,
}

/// The view of a flat entry list, with byte payloads as sequences.
pub open spec fn entries_view(v: Seq<(u64, Vec<u8>)>) -> Seq<(u64, Seq<u8>)> {
    Seq::new(v.len(), |i: int| (v[i].0, v[i].1@))
}

/// The keys of an entry list.
pub open spec fn entry_keys(s: Seq<(u64, Seq<u8>)>) -> Seq<u64> {
    Seq::new(s.len(), |i: int| s[i].0)
}

/// An entry list holds no key twice.
pub open spec fn unique_entry_keys(s: Seq<(u64, Seq<u8>)>) -> bool {
    forall|i: int, j: int| 0 <= i < j < s.len() ==> s[i].0 != s[j].0
}

/// The mathematical map an entry list stands for; later entries win.
pub open spec fn to_map(s: Seq<(u64, Seq<u8>)>) -> Map<u64, Seq<u8>>
    decreases s.len(),
{
    if s.len() == 0 {
        Map::empty()
    } else {
        to_map(s.drop_last()).insert(s.last().0, s.last().1)
    }
}

/// Membership in `to_map` is membership among the entry keys, and with unique
/// keys each entry gives its key's value.
pub proof fn lemma_to_map(s: Seq<(u64, Seq<u8>)>)
    ensures
        forall|k: u64|
            to_map(s).contains_key(k) <==> exists|i: int| 0 <= i < s.len() && s[i].0 == k,
        unique_entry_keys(s) ==> forall|i: int|
            0 <= i < s.len() ==> to_map(s)[#[trigger] s[i].0] == s[i].1,
    decreases s.len(),
{
    if s.len() == 0 {
    } else {
        lemma_to_map(s.drop_last());
        assert forall|k: u64| to_map(s).contains_key(k) implies exists|i: int|
            0 <= i < s.len() && s[i].0 == k by {
            if k == s.last().0 {
                assert(s[s.len() - 1].0 == k);
            } else {
                assert(to_map(s.drop_last()).contains_key(k));
                let i = choose|i: int| 0 <= i < s.drop_last().len() && s.drop_last()[i].0 == k;
                assert(s.drop_last()[i] == s[i]);
                assert(s[i].0 == k);
            }
        }
        assert forall|k: u64| (exists|i: int| 0 <= i < s.len() && s[i].0 == k) implies to_map(
            s,
        ).contains_key(k) by {
            let i = choose|i: int| 0 <= i < s.len() && s[i].0 == k;
            if i < s.len() - 1 {
                assert(s.drop_last()[i].0 == k);
                assert(to_map(s.drop_last()).contains_key(k));
            } else {
                assert(s.last().0 == k);
            }
        }
        if unique_entry_keys(s) {
            assert(unique_entry_keys(s.drop_last()));
            assert forall|i: int| 0 <= i < s.len() implies to_map(s)[#[trigger] s[i].0]
                == s[i].1 by {
                if i < s.len() - 1 {
                    assert(s.drop_last()[i].0 == s[i].0);
                    assert(s[i].0 != s.last().0);
                }
            }
        }
    }
}

/// The position of key `k` in `s`, or `s.len()` when absent.
pub open spec fn key_pos(s: Seq<(u64, Seq<u8>)>, k: u64) -> int
    decreases s.len(),
{
    if s.len() == 0 {
        0
    } else if s[0].0 == k {
        0
    } else {
        1 + key_pos(s.drop_first(), k)
    }
}

/// What `key_pos` finds: the first entry with key `k`, if any.
pub proof fn lemma_key_pos(s: Seq<(u64, Seq<u8>)>, k: u64)
    ensures
        0 <= key_pos(s, k) <= s.len(),
        forall|j: int| 0 <= j < key_pos(s, k) ==> s[j].0 != k,
        key_pos(s, k) < s.len() ==> s[key_pos(s, k)].0 == k,
    decreases s.len(),
{
    if s.len() == 0 {
    } else if s[0].0 == k {
    } else {
        let d = s.drop_first();
        lemma_key_pos(d, k);
        let p = key_pos(d, k);
        assert(key_pos(s, k) == 1 + p);
        assert forall|j: int| 0 <= j < key_pos(s, k) implies s[j].0 != k by {
            if j > 0 {
                assert(d[j - 1] == s[j]);
            }
        }
        if p < d.len() {
            assert(d[p] == s[p + 1]);
        }
    }
}

/// Replacing at the key's position, or appending, as `KvMap::insert` does.
pub open spec fn kv_insert(s: Seq<(u64, Seq<u8>)>, k: u64, v: Seq<u8>) -> Seq<(u64, Seq<u8>)> {
    let p = key_pos(s, k);
    if p < s.len() {
        s.update(p, (k, v))
    } else {
        s.push((k, v))
    }
}

/// `kv_insert` keeps keys unique and updates the map by one binding.
pub proof fn lemma_kv_insert(s: Seq<(u64, Seq<u8>)>, k: u64, v: Seq<u8>)
    requires
        unique_entry_keys(s),
    ensures
        unique_entry_keys(kv_insert(s, k, v)),
        to_map(kv_insert(s, k, v)) == to_map(s).insert(k, v),
{
    lemma_key_pos(s, k);
    lemma_to_map(s);
    let r = kv_insert(s, k, v);
    assert(unique_entry_keys(r));
    lemma_to_map(r);
    assert(unique_entry_keys(r));
    assert forall|q: u64| #[trigger]
        to_map(r).contains_key(q) implies to_map(s).insert(k, v).contains_key(q) by {
        let i = choose|i: int| 0 <= i < r.len() && r[i].0 == q;
        if i == key_pos(s, k) && key_pos(s, k) < s.len() {
        } else if i < s.len() {
            assert(s[i].0 == q);
        } else {
            assert(q == k);
        }
    }
    assert forall|q: u64| #[trigger]
        to_map(s).insert(k, v).contains_key(q) implies to_map(r).contains_key(q) by {
        if q == k {
            let p = key_pos(s, k);
            assert(r[p].0 == k);
        } else {
            let i = choose|i: int| 0 <= i < s.len() && s[i].0 == q;
            assert(r[i].0 == q);
        }
    }
    assert forall|q: u64| to_map(r).contains_key(q) implies to_map(r)[q] == to_map(s).insert(
        k,
        v,
    )[q] by {
        let i = choose|i: int| 0 <= i < r.len() && r[i].0 == q;
        assert(to_map(r)[r[i].0] == r[i].1);
        if q == k {
            let p = key_pos(s, k);
            if i != p {
                assert(r[i] == s[i]);
                assert(false);
            }
        } else {
            assert(r[i] == s[i]);
            assert(to_map(s)[s[i].0] == s[i].1);
        }
    }
    assert(to_map(r) =~= to_map(s).insert(k, v));
}

impl View for KvMap {
    type V = Seq<(u64, Seq<u8>)>;

    open spec fn view(&self) -> Seq<(u64, Seq<u8>)> {
        entries_view(self.entries@)
    }
}

impl KvMap {
    /// The mathematical map this flat map stands for.
    pub open spec fn map_view(&self) -> Map<u64, Seq<u8>> {
        to_map(self@)
    }

    /// The map holds no key twice.
    pub open spec fn wf(&self) -> bool {
        unique_entry_keys(self@)
    }

    /// An empty map.
    pub fn new() -> (r: Self)
        ensures
            r@ == Seq::<(u64, Seq<u8>)>::empty(),
            r.wf(),
    {
        let r = KvMap { entries: Vec::new() };
        proof {
            assert(r@ =~= Seq::<(u64, Seq<u8>)>::empty());
        }
        r
    }

    /// The number of entries held.
    pub fn len(&self) -> (r: usize)
        ensures
            r == self@.len(),
    {
        self.entries.len()
    }


    /// The value held for `k`, copied out, or `None` when `k` is absent.
    pub fn get_cloned(&self, k: u64) -> (r: Option<Vec<u8>>)
        requires
            self.wf(),
        ensures
            opt_bytes_view(r) == spec_get(self.map_view(), k),
    {
        proof {
            lemma_to_map(self@);
        }
        let n = self.entries.len();
        let mut i: usize = 0;
        while i < n
            invariant
                i <= n,
                forall|j: int| 0 <= j < i ==> self@[j].0 != k,
            decreases n - i,
        {
            if self.entries[i].0 == k {
                let v = copy_bytes(&self.entries[i].1);
                proof {
                    assert(self@[i as int].0 == k);
                    assert(self.map_view()[k] == self@[i as int].1);
                }
                return Some(v);
            }
            i += 1;
        }
        proof {
            if self.map_view().contains_key(k) {
                let j = choose|j: int| 0 <= j < self@.len() && self@[j].0 == k;
                assert(false);
            }
        }
        None
    }

    /// Binds `k` to `v`, replacing any earlier binding in place.
    pub fn insert(&mut self, k: u64, v: Vec<u8>)
        requires
            old(self).wf(),
        ensures
            final(self)@ == kv_insert(old(self)@, k, v@),
            final(self).wf(),
            final(self).map_view() == old(self).map_view().insert(k, v@),
    {
        proof {
            lemma_key_pos(self@, k);
            lemma_kv_insert(self@, k, v@);
        }
        let ghost orig = self@;
        let n = self.entries.len();
        let mut i: usize = 0;
        while i < n
            invariant
                i <= n,
                forall|j: int| 0 <= j < i ==> self@[j].0 != k,
                self@ == orig,
            decreases n - i,
        {
            if self.entries[i].0 == k {
                proof {
                    assert(key_pos(orig, k) == i) by {
                        lemma_key_pos(orig, k);
                        if key_pos(orig, k) < i {
                            assert(orig[key_pos(orig, k)].0 != k);
                        }
                        if key_pos(orig, k) > i {
                            assert(orig[i as int].0 != k);
                        }
                    }
                }
                self.entries.remove(i);
                self.entries.insert(i, (k, v));
                proof {
                    assert(self@ =~= kv_insert(orig, k, v@));
                }
                return ;
            }
            i += 1;
        }
        proof {
            assert(key_pos(orig, k) == n) by {
                lemma_key_pos(orig, k);
                if key_pos(orig, k) < n {
                    assert(orig[key_pos(orig, k)].0 == k);
                }
            }
        }
        self.entries.push((k, v));
        proof {
            assert(self@ =~= kv_insert(orig, k, v@));
        }
    }

    /// A separate map with the same entries in the same order.
    pub fn duplicate(&self) -> (r: Self)
        ensures
            r@ == self@,
    {
        let mut entries: Vec<(u64, Vec<u8>)> = Vec::new();
        let n = self.entries.len();
        let mut i: usize = 0;
        while i < n
            invariant
                i <= n,
                entries_view(entries@) == self@.take(i as int),
            decreases n - i,
        {
            let k = self.entries[i].0;
            let v = copy_bytes(&self.entries[i].1);
            entries.push((k, v));
            proof {
                assert(entries_view(entries@) =~= self@.take(i + 1));
            }
            i += 1;
        }
        proof {
            assert(self@.take(n as int) =~= self@);
        }
        KvMap { entries }
    }
}

/// Looks every key of `keys` up in `cache`, in order.
///
/// Relies on rayon's indexed parallel iterator (`par_iter().map().collect()`):
/// the map applies the closure — here a verified lookup — to every element,
/// and collecting an indexed parallel iterator keeps the input order. The
/// minimum chunk length only bounds how the work is split between threads.
#[verifier::external_body]
pub(crate) fn par_lookup(keys: &KeySet, cache: &KvMap) -> (r: Vec<Option<Vec<u8>>>)
    requires
        cache.wf(),
    ensures
        r@.len() == keys@.len(),
        forall|i: int|
            0 <= i < keys@.len() ==> opt_bytes_view(#[trigger] r@[i]) == spec_get(
                cache.map_view(),
                keys@[i],
            ),
{
    keys.keys.par_iter().with_min_len(100).map(|k| cache.get_cloned(*k)).collect()
}


} // verus!
