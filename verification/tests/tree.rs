use state_delta::bytes::push_u64_le;
use state_delta::bytes::read_u64_le;
use state_delta::kv::KeySet;
use state_delta::kv::KvMap;
use state_delta::tree::TreeSnapshot;

#[test]
fn root_digest_is_thirty_two_bytes() {
    let empty = TreeSnapshot::new();
    assert_eq!(empty.root_hash().len(), 32);
    let one = empty.batch_update(&vec![(10, vec![1, 2, 3])]);
    assert_eq!(one.root_hash().len(), 32);
}

#[test]
fn root_digest_does_not_depend_on_update_order() {
    let a = TreeSnapshot::new().batch_update(&vec![(1, vec![1]), (2, vec![2])]);
    let b = TreeSnapshot::new().batch_update(&vec![(2, vec![2]), (1, vec![1])]);
    assert_eq!(a.root_hash(), b.root_hash());
    assert_eq!(a.entries, b.entries);
}

#[test]
fn lookup_returns_the_layered_value() {
    let t = TreeSnapshot::new().batch_update(&vec![(1, vec![1])]);
    let t2 = t.batch_update(&vec![(1, vec![9]), (2, vec![2])]);
    assert_eq!(t.get_cloned(1).unwrap(), vec![1]);
    assert_eq!(t2.get_cloned(1).unwrap(), vec![9]);
    assert_eq!(t2.get_cloned(2).unwrap(), vec![2]);
    assert!(t2.get_cloned(3).is_none());
}

#[test]
fn node_digests_cover_exactly_the_changed_leaves() {
    let t = TreeSnapshot::new().batch_update(&vec![(1, vec![1]), (2, vec![2])]);
    let t2 = t.batch_update(&vec![(2, vec![9]), (3, vec![3])]);
    let diff = t2.new_node_hashes_since(&t);
    let keys: Vec<u64> = diff.entries.iter().map(|e| e.0).collect();
    assert_eq!(keys, vec![2, 3]);
    for e in &diff.entries {
        assert_eq!(e.1.len(), 32);
    }
}

#[test]
fn flat_map_keeps_one_binding_per_key() {
    let mut m = KvMap::new();
    m.insert(5, vec![1]);
    m.insert(5, vec![2]);
    assert_eq!(m.len(), 1);
    assert_eq!(m.get_cloned(5).unwrap(), vec![2]);
    assert!(m.get_cloned(6).is_none());
}

#[test]
fn key_set_holds_no_key_twice() {
    let mut s = KeySet::new();
    s.insert(5);
    s.insert(5);
    s.insert(6);
    assert_eq!(s.len(), 2);
    assert!(s.contains(5));
    assert!(s.contains(6));
    assert!(!s.contains(7));
}

#[test]
fn little_endian_round_trip() {
    let mut bytes = Vec::new();
    push_u64_le(&mut bytes, 123456789);
    assert_eq!(bytes.len(), 8);
    assert_eq!(read_u64_le(&bytes, 0), 123456789);
}
