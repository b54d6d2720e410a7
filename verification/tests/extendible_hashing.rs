use data_structures::extendible_hashing::{ExtendiableHash, InsertError, Mode};

const SET_SIZE: usize = 1 << 10;
type K = u64;
type V = u64;

fn workload() -> Vec<(K, V)> {
    let mut workload = vec![];
    workload.resize(SET_SIZE, (0, 0));
    for i in 1..SET_SIZE {
        workload[i] = (i as K, i as V);
    }
    workload
}

#[test]
fn stress_crate_no() {
    let workload = workload();

    let mut m = ExtendiableHash::new(2, 32);
    for (k, v) in &workload {
        m.insert(k.clone(), v.clone());
    }
    for (k, v) in &workload {
        assert_eq!(&*m.get(k).unwrap(), v);
    }
    for (k, _) in &workload {
        m.remove(k, Mode::No);
    }
    for (k, _) in &workload {
        assert!(m.get(k).is_none());
    }
}

#[test]
fn stress_crate_merge() {
    let workload = workload();

    let mut m = ExtendiableHash::new(2, 32);
    for (k, v) in &workload {
        m.insert(k.clone(), v.clone());
    }
    for (k, v) in &workload {
        assert_eq!(&*m.get(k).unwrap(), v);
    }
    for (k, _) in &workload {
        m.remove(k, Mode::Merge);
    }
    for (k, _) in &workload {
        assert!(m.get(k).is_none());
    }
}

#[test]
fn stress_crate_shrink() {
    let workload = workload();

    let mut m = ExtendiableHash::new(2, 32);
    for (k, v) in &workload {
        m.insert(k.clone(), v.clone());
    }
    for (k, v) in &workload {
        assert_eq!(&*m.get(k).unwrap(), v);
    }
    for (k, _) in &workload {
        m.remove(k, Mode::Shrink);
    }
    for (k, _) in &workload {
        assert!(m.get(k).is_none());
    }
}

/// Checks the depth invariant slot by slot: local depth within bounds, and
/// as many slots per bucket as the two depths allow.
fn check_depths(m: &ExtendiableHash<K, V>) {
    let depth = m.global_depth();
    let len = m.directory_len();
    assert_eq!(len, 1usize << depth);
    for slot in 0..len {
        let local = m.bucket(slot).local_depth();
        assert!(1 <= local && local <= depth);
        let mut sharing = 0;
        for other in 0..len {
            if m.same_bucket(slot, other) {
                sharing += 1;
                assert_eq!(other & ((1 << local) - 1), slot & ((1 << local) - 1));
            }
        }
        assert_eq!(sharing, 1usize << (depth - local));
    }
}

/// Keys that a directory of the given depth routes to the slot of `like`.
fn keys_routed_like(like: K, depth: usize, count: usize) -> Vec<K> {
    let probe: ExtendiableHash<K, V> = ExtendiableHash::new(depth, 1);
    let slot = probe.slot_for(&like);
    let mut keys = vec![];
    let mut k: K = 0;
    while keys.len() < count {
        if probe.slot_for(&k) == slot {
            keys.push(k);
        }
        k += 1;
    }
    keys
}

#[test]
fn round_trip() {
    let mut m: ExtendiableHash<K, V> = ExtendiableHash::new(1, 4);
    for k in 0..200u64 {
        assert!(m.insert(k, k * 3));
        assert_eq!(m.get(&k), Some(&(k * 3)));
    }
    check_depths(&m);
}

#[test]
fn duplicate_insert_does_not_overwrite() {
    let mut m: ExtendiableHash<K, V> = ExtendiableHash::new(2, 2);
    assert!(m.insert(7, 70));
    assert!(!m.insert(7, 71));
    assert_eq!(m.get(&7), Some(&70));
    assert_eq!(m.try_insert(7, 72), Ok(false));
    assert_eq!(m.get(&7), Some(&70));
}

#[test]
fn update_of_absent_key_is_silent() {
    let mut m: ExtendiableHash<K, V> = ExtendiableHash::new(2, 2);
    m.update(5, 50);
    assert_eq!(m.get(&5), None);
    m.insert(5, 1);
    m.update(5, 50);
    assert_eq!(m.get(&5), Some(&50));
}

#[test]
fn delete_then_miss() {
    let mut m: ExtendiableHash<K, V> = ExtendiableHash::new(2, 2);
    m.insert(9, 90);
    m.remove(&9, Mode::No);
    assert_eq!(m.get(&9), None);
    m.remove(&9, Mode::No);
    assert_eq!(m.get(&9), None);
}

#[test]
fn get_mut_writes_through() {
    let mut m: ExtendiableHash<K, V> = ExtendiableHash::new(2, 2);
    m.insert(3, 30);
    match m.get_mut(&3) {
        Some(v) => *v = 31,
        None => panic!("key 3 is there"),
    }
    assert_eq!(m.get(&3), Some(&31));
    assert!(m.get_mut(&4).is_none());
}

#[test]
fn scenario_split_on_overflow() {
    let keys = keys_routed_like(1, 2, 4);
    let mut m: ExtendiableHash<K, V> = ExtendiableHash::new(2, 2);
    let slot = m.slot_for(&keys[0]);
    for k in &keys {
        assert_eq!(m.slot_for(k), slot);
    }
    for (i, k) in keys.iter().enumerate() {
        assert!(m.insert(*k, i as V));
        if i < 2 {
            assert_eq!(m.global_depth(), 2);
            assert_eq!(m.directory_len(), 4);
        }
    }
    assert!(m.global_depth() > 2);
    for (i, k) in keys.iter().enumerate() {
        assert_eq!(m.get(k), Some(&(i as V)));
    }
    check_depths(&m);
}

#[test]
fn scenario_many_keys() {
    let mut m: ExtendiableHash<K, V> = ExtendiableHash::new(2, 32);
    for k in 0..1024u64 {
        assert!(m.insert(k, k));
    }
    for k in 0..1024u64 {
        assert_eq!(m.get(&k), Some(&k));
    }
    let len = m.directory_len();
    assert!(len.is_power_of_two());
    assert_eq!(len, 1usize << m.global_depth());
    assert!(len * 32 >= 1024);
    check_depths(&m);
}

#[test]
fn scenario_merge() {
    let keys = keys_routed_like(1, 2, 3);
    let mut m: ExtendiableHash<K, V> = ExtendiableHash::new(2, 2);
    for k in &keys {
        m.insert(*k, 0);
    }
    let depth = m.global_depth();
    assert!(depth > 2);
    check_depths(&m);
    for k in &keys {
        let slot = m.slot_for(k);
        let local = m.bucket(slot).local_depth();
        let pair = m.bucket(slot).pair_index(slot);
        let pair_local = m.bucket(pair).local_depth();
        let last = m.bucket(slot).keys().len() == 1;
        m.remove(k, Mode::Merge);
        assert_eq!(m.global_depth(), depth);
        if last && local > 1 && pair_local == local {
            assert!(m.same_bucket(slot, pair));
            assert_eq!(m.bucket(slot).local_depth(), local - 1);
        } else {
            assert_eq!(m.bucket(slot).local_depth(), local);
        }
        check_depths(&m);
    }
    for k in &keys {
        assert_eq!(m.get(k), None);
    }
}

#[test]
fn scenario_shrink() {
    let keys = keys_routed_like(1, 2, 3);
    let mut m: ExtendiableHash<K, V> = ExtendiableHash::new(2, 2);
    let before = m.directory_len();
    for k in &keys {
        m.insert(*k, 0);
    }
    assert!(m.directory_len() > before);
    let mut last = m.directory_len();
    for k in &keys {
        m.remove(k, Mode::Shrink);
        assert!(m.directory_len() == last || 2 * m.directory_len() == last);
        last = m.directory_len();
        check_depths(&m);
    }
    // A bucket folds only when the slot of the removed key empties, so
    // further removals at the other slots let the directory come down.
    for k in 0..64u64 {
        m.remove(&k, Mode::Shrink);
        check_depths(&m);
    }
    assert!(m.directory_len() <= last);
    assert!(m.global_depth() >= 1);
}

#[test]
fn try_insert_reports_a_bucket_full_of_rivals() {
    let mut m: ExtendiableHash<K, V> = ExtendiableHash::new(1, 0);
    assert_eq!(m.try_insert(1, 1), Err(InsertError::DepthExhausted));
    assert_eq!(m.get(&1), None);
    assert_eq!(m.global_depth(), 1);
    let mut roomy: ExtendiableHash<K, V> = ExtendiableHash::new(1, 1);
    assert_eq!(roomy.try_insert(1, 1), Ok(true));
    assert_eq!(roomy.try_insert(2, 2), Ok(true));
    assert_eq!(roomy.get(&1), Some(&1));
    assert_eq!(roomy.get(&2), Some(&2));
}

#[test]
fn bucket_names_are_binary_suffixes() {
    let m: ExtendiableHash<K, V> = ExtendiableHash::new(3, 2);
    assert_eq!(m.bucket_id_string(0), "000");
    assert_eq!(m.bucket_id_string(1), "001");
    assert_eq!(m.bucket_id_string(5), "101");
    assert_eq!(m.bucket_id_string(6), "110");
}

#[test]
fn signed_keys_hash_as_their_bit_patterns() {
    let unsigned: ExtendiableHash<u64, V> = ExtendiableHash::new(4, 2);
    let signed: ExtendiableHash<i64, V> = ExtendiableHash::new(4, 2);
    for k in -20i64..20 {
        assert_eq!(signed.slot_for(&k), unsigned.slot_for(&(k as u64)));
    }
}

#[test]
fn routing_spreads_keys() {
    // A hasher that handed every key the same value would route all keys
    // to one slot.
    let m: ExtendiableHash<K, V> = ExtendiableHash::new(4, 2);
    let first = m.slot_for(&0);
    assert!((1..64u64).any(|k| m.slot_for(&k) != first));
}
