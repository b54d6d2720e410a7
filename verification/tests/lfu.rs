use data_structures::lfu_hash_avl::LFUCache as RankedCache;
use data_structures::lfu_two_list::{LFUCache, List, Node};

#[test]
fn basics() {
    let mut l = RankedCache::new(2);
    l.put(3, 1);
    l.put(2, 1);
    l.put(2, 2);
    l.put(4, 4);
    // 4 3
    // 2
    assert_eq!(l.get(2), Some(2));

    let mut l = RankedCache::new(2);
    l.put(1, 1);
    l.put(2, 2);
    assert_eq!(l.get(1), Some(1));
    // 3 x2
    // 1
    l.put(3, 3);
    assert_eq!(l.get(2), None);
    // x2
    // 3 1
    assert_eq!(l.get(3), Some(3));
    // 4 x2
    // 3 x1
    l.put(4, 4);
    assert_eq!(l.get(1), None);
    assert_eq!(l.get(3), Some(3));
    assert_eq!(l.get(4), Some(4));
}

#[test]
fn basics_lfu() {
    let mut l = LFUCache::new(3);
    l.put(2, 2);
    l.put(1, 1);
    assert_eq!(l.get(2), 2);
    assert_eq!(l.get(1), 1);
    assert_eq!(l.get(2), 2);
    l.put(3, 3);
    l.put(4, 4);
    assert_eq!(l.get(3), -1);
    assert_eq!(l.get(2), 2);
    assert_eq!(l.get(1), 1);
    assert_eq!(l.get(4), 4);

    let mut l = LFUCache::new(2);
    l.put(2, 1);
    l.put(2, 2);
    assert_eq!(l.get(2), 2);
    l.put(1, 1);
    l.put(4, 1);
    assert_eq!(l.get(2), 2);

    let mut l = LFUCache::new(2);
    l.put(1, 1);
    l.put(2, 2);
    assert_eq!(l.get(1), 1);
    l.put(3, 3);
    assert_eq!(l.get(2), -1);
    assert_eq!(l.get(3), 3);
    l.put(4, 4);
    assert_eq!(l.get(1), -1);
    assert_eq!(l.get(3), 3);
    assert_eq!(l.get(4), 4);
}

#[test]
fn lfu_for_no_entries_stays_empty() {
    let mut ranked: RankedCache<i32, i32> = RankedCache::new(0);
    ranked.put(1, 1);
    assert_eq!(ranked.get(1), None);
    let mut listed = LFUCache::new(0);
    listed.put(1, 1);
    assert_eq!(listed.get(1), -1);
}

#[test]
fn lfu_gives_up_the_oldest_of_the_least_used() {
    let mut ranked = RankedCache::new(3);
    let mut listed = LFUCache::new(3);
    for k in [1, 2, 3] {
        ranked.put(k, k * 10);
        listed.put(k, k * 10);
    }
    // 2 and 3 are used again, 1 is the least used
    assert_eq!(ranked.get(2), Some(20));
    assert_eq!(ranked.get(3), Some(30));
    assert_eq!(listed.get(2), 20);
    assert_eq!(listed.get(3), 30);
    ranked.put(4, 40);
    listed.put(4, 40);
    assert_eq!(ranked.get(1), None);
    assert_eq!(listed.get(1), -1);
    // 4 has been used twice now, as 2 and 3 have not: of those, 2 is older
    assert_eq!(ranked.get(4), Some(40));
    assert_eq!(listed.get(4), 40);
    ranked.put(5, 50);
    listed.put(5, 50);
    assert_eq!(ranked.get(2), None);
    assert_eq!(listed.get(2), -1);
    assert_eq!(ranked.get(3), Some(30));
    assert_eq!(listed.get(3), 30);
}

#[test]
fn lfu_list_of_nodes() {
    let mut list = List::new();
    assert!(list.is_empty());
    assert_eq!(list.pop_back(), None);
    list.push_front(Node::new(1, 10));
    list.push_front(Node::new(2, 20));
    list.push_front(Node::new(3, 30));
    assert!(!list.is_empty());
    list.erase(Node::new(2, 0));
    list.erase(Node::new(7, 0));
    assert_eq!(list.find(3), 0);
    assert_eq!(list.find(1), 1);
    assert_eq!(list.find(2), 2);
    let last = list.pop_back().unwrap();
    assert_eq!((last.key(), last.value(), last.freq()), (1, 10, 1));
    assert_eq!(list.pop_back(), Some(Node::new(3, 30)));
    assert!(list.is_empty());
}
