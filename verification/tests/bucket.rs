use data_structures::extendible_hashing::Bucket;

#[test]
fn bucket_insert_keeps_the_first_value() {
    let mut b: Bucket<u64, u64> = Bucket::new(2, 1);
    assert!(b.is_empty());
    assert!(b.insert(1, 10));
    assert!(b.insert(1, 11));
    assert_eq!(b.get(&1), Some(&10));
    assert!(b.contains_key(&1));
    assert!(!b.contains_key(&2));
    assert!(!b.is_full());
    assert!(b.insert(2, 20));
    assert!(b.is_full());
}

#[test]
fn bucket_update_and_remove() {
    let mut b: Bucket<u64, u64> = Bucket::new(2, 1);
    b.update(1, 10);
    assert_eq!(b.get(&1), None);
    b.insert(1, 10);
    b.update(1, 12);
    assert_eq!(b.get(&1), Some(&12));
    match b.get_mut(&1) {
        Some(v) => *v += 1,
        None => panic!("key 1 is there"),
    }
    assert_eq!(b.get(&1), Some(&13));
    b.table_mut().insert(5, 50);
    assert_eq!(b.get(&5), Some(&50));
    b.remove(&1);
    b.remove(&1);
    assert_eq!(b.get(&1), None);
    let mut values = b.values();
    values.sort();
    assert_eq!(values, vec![50]);
}

#[test]
fn bucket_depth_and_pair() {
    let mut b: Bucket<u64, u64> = Bucket::new(2, 1);
    assert_eq!(b.local_depth(), 1);
    assert_eq!(b.depth_up(), 2);
    assert_eq!(b.depth_up(), 3);
    assert_eq!(b.pair_index(0b001), 0b101);
    assert_eq!(b.pair_index(0b101), 0b001);
    assert_eq!(b.pair_index(0b1110), 0b1010);
    assert_eq!(b.depth_down(), 2);
    assert_eq!(b.pair_index(0b001), 0b011);
    assert_eq!(b.local_depth(), 2);
}
