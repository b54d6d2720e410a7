use data_structures::lru::LRUCache;

#[test]
fn test() {
    let mut obj = LRUCache::new(2);
    obj.put(1, 1);
    obj.put(2, 2);
    // 1 -> 2
    assert_eq!(Some(1), obj.get(1));
    // 3 -> 1
    obj.put(3, 3);
    // should be -1 since lru cap = 2
    assert_eq!(None, obj.get(2));
    // 4 -> 3
    obj.put(4, 4);
    assert_eq!(None, obj.get(1));
    assert_eq!(Some(3), obj.get(3));
    assert_eq!(Some(4), obj.get(4));

    let mut obj = LRUCache::new(2);
    // 1:0
    obj.put(1, 0);
    // 2:2 -> 1:0
    obj.put(2, 2);
    // 1:0 -> 2:2
    assert_eq!(Some(0), obj.get(1));
    // 3:3 -> 1:0
    obj.put(3, 3);
    assert_eq!(None, obj.get(2));
    // 4:4 -> 3:3
    obj.put(4, 4);
    assert_eq!(None, obj.get(1));
    assert_eq!(Some(3), obj.get(3));
    assert_eq!(Some(4), obj.get(4));

    let mut obj = LRUCache::new(1);
    obj.put(2, 1);
    assert_eq!(Some(1), obj.get(2));
    obj.put(3, 2);
    assert_eq!(None, obj.get(2));
    assert_eq!(Some(2), obj.get(3));

    // the head is used again before it is given up
    let mut obj = LRUCache::new(2);
    // 2:1
    obj.put(2, 1);
    assert_eq!(Some(1), obj.get(2));
    // 3:2 -> 2:1
    obj.put(3, 2);
    assert_eq!(Some(2), obj.get(3));
    // 2:1 -> 3:2
    assert_eq!(Some(1), obj.get(2));
    // 4:3 -> 2:1
    obj.put(4, 3);
    // 2:1 -> 4:3
    assert_eq!(Some(1), obj.get(2));
    assert_eq!(None, obj.get(3));
    // 4:3 -> 2:1
    assert_eq!(Some(3), obj.get(4));
}

#[test]
fn lru_put_overwrites_and_promotes() {
    let mut obj = LRUCache::new(3);
    obj.put(1, 10);
    obj.put(2, 20);
    obj.put(3, 30);
    obj.put(1, 11);
    obj.put(4, 40);
    assert_eq!(obj.get(2), None);
    assert_eq!(obj.get(1), Some(11));
    assert_eq!(obj.get(3), Some(30));
    assert_eq!(obj.get(4), Some(40));
}

#[test]
fn lru_for_one_entry_keeps_a_place_holder() {
    let mut obj = LRUCache::new(1);
    obj.put(1, 1);
    obj.put(2, 2);
    assert_eq!(obj.get(1), None);
    // the entry given up first has stayed in the ring, and is what the
    // next put gives up
    obj.put(3, 3);
    assert_eq!(obj.get(2), Some(2));
    assert_eq!(obj.get(3), Some(3));
    obj.put(4, 4);
    assert_eq!(obj.get(2), None);
    assert_eq!(obj.get(3), Some(3));
    assert_eq!(obj.get(4), Some(4));
}
