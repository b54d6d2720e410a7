use data_structures::concurrent_skiplist::array_skiplist::Skiplist as ArraySkiplist;
use data_structures::concurrent_skiplist::chance::{height_from, MAX_HEIGHT};
use data_structures::concurrent_skiplist::levels::{holds, insert_sorted, lower_bound, remove_one};
use data_structures::concurrent_skiplist::list_skiplist::Skiplist as ListSkiplist;

type K = i32;
type V = i32;
const SET_SIZE: usize = 1 << 10;

fn create_workload() -> Vec<(K, V)> {
    let mut v = vec![];
    v.resize(SET_SIZE, (0, 0));
    for i in 1..SET_SIZE {
        v[i] = (i as K, i as V);
    }
    v
}

#[test]
fn skiplist() {
    let mut sl = ListSkiplist::new();
    sl.add(1);
    assert_eq!(sl.search(1), true);
    assert_eq!(sl.erase(1), true);
    assert_eq!(sl.search(1), false);

    sl.add(2);
    sl.add(2);
    assert_eq!(sl.erase(2), true);
    assert_eq!(sl.search(2), true);
    assert_eq!(sl.erase(2), true);
    assert_eq!(sl.search(2), false);

    sl.add(1);
    sl.add(2);
    sl.add(3);
    assert_eq!(sl.search(4), false);
    assert_eq!(sl.erase(4), false);
    assert_eq!(sl.erase(2), true);
    assert_eq!(sl.search(2), false);
}

#[test]
fn list_base() {
    let workload = &create_workload();
    let mut s = ListSkiplist::new();
    for (k, _) in workload {
        s.add(*k);
    }
    for (k, _) in workload {
        s.search(*k);
    }
    for (k, _) in workload {
        s.erase(*k);
    }
}

#[test]
fn array_base() {
    let workload = &create_workload();
    let mut s = ArraySkiplist::new();
    for (k, _) in workload {
        s.add(*k);
    }
    for (k, _) in workload {
        s.search(*k);
    }
    for (k, _) in workload {
        s.erase(*k);
    }
}

#[test]
fn array_skiplist_is_a_bag() {
    let mut s = ArraySkiplist::new();
    assert!(!s.search(3));
    assert!(!s.erase(3));
    for x in [5, 3, 9, 3, -2] {
        s.add(x);
    }
    assert!(s.search(3) && s.search(-2) && s.search(9));
    assert!(!s.search(4));
    assert!(s.erase(3));
    assert!(s.search(3));
    assert!(s.erase(3));
    assert!(!s.search(3));
    assert!(!s.erase(3));
    let rows = s.rows();
    assert_eq!(rows.last().unwrap(), &vec![-2, 5, 9]);
    for x in [5, 9, -2] {
        assert!(s.erase(x));
    }
    assert_eq!(s.rows().len(), 0);
}

#[test]
fn array_skiplist_heights() {
    let mut s = ArraySkiplist::new();
    s.add_at_height(7, 3);
    s.add_at_height(4, 1);
    s.add_at_height(9, 2);
    assert_eq!(s.rows(), vec![vec![7], vec![7, 9], vec![4, 7, 9]]);
    assert!(s.erase(7));
    assert_eq!(s.rows(), vec![vec![9], vec![4, 9]]);
    s.add_at_height(1, MAX_HEIGHT);
    assert_eq!(s.rows().len(), MAX_HEIGHT);
    assert!(s.erase(1));
    assert_eq!(s.rows(), vec![vec![9], vec![4, 9]]);
}

#[test]
fn heights_from_bits() {
    assert_eq!(height_from(1), 1);
    assert_eq!(height_from(3), 1);
    assert_eq!(height_from(2), 2);
    assert_eq!(height_from(0b1000), 4);
    assert_eq!(height_from(0b10100), 3);
    assert_eq!(height_from(0), 32);
    assert_eq!(height_from(0x8000_0000), 32);
    assert_eq!(height_from(0x4000_0000), 31);
    assert_eq!(height_from(u32::MAX), 1);
}

#[test]
fn random_heights_vary() {
    // A draw that handed back the same bits every time would give every
    // element the same height.
    let mut s = ArraySkiplist::new();
    let mut heights = std::collections::HashSet::new();
    for x in 0..400 {
        s.add(x);
        let rows = s.rows();
        heights.insert(rows.iter().filter(|row| row.contains(&x)).count());
    }
    assert!(heights.len() > 1);
    let mut l = ListSkiplist::new();
    let mut tall = 0;
    for x in 0..400 {
        l.add(x);
    }
    for x in 0..400 {
        if l.rows().iter().filter(|row| row.contains(&x)).count() > 1 {
            tall += 1;
        }
    }
    assert!(tall > 0 && tall < 400);
}

#[test]
fn list_skiplist_levels() {
    let mut s = ListSkiplist::new();
    s.add_reaching(5, 1, true);
    assert_eq!(s.rows(), vec![vec![], vec![5]]);
    s.add_reaching(3, 2, false);
    assert_eq!(s.rows(), vec![vec![3], vec![3, 5]]);
    s.add_reaching(3, 1, false);
    assert_eq!(s.rows(), vec![vec![3], vec![3, 3, 5]]);
    assert!(s.erase(3));
    assert_eq!(s.rows(), vec![vec![], vec![3, 5]]);
    assert!(s.erase(3));
    assert!(!s.erase(3));
    assert_eq!(s.rows(), vec![vec![], vec![5]]);
}

#[test]
fn list_skiplist_finds_its_head_key() {
    let mut s = ListSkiplist::new();
    // the search ends at the head, whose key is -1
    assert!(s.search(-1));
    assert!(!s.search(0));
    s.add(4);
    assert!(s.search(-1));
    s.add(-7);
    assert!(!s.search(-1));
    assert!(s.search(-7));
    s.add(-1);
    assert!(s.search(-1));
    assert!(s.erase(-1));
    assert!(!s.search(-1));
    assert!(!s.erase(-1));
}

#[test]
fn sorted_levels() {
    let mut level = vec![];
    for x in [4, 1, 3, 1, 9] {
        insert_sorted(&mut level, x);
    }
    assert_eq!(level, vec![1, 1, 3, 4, 9]);
    assert_eq!(lower_bound(&level, 0), 0);
    assert_eq!(lower_bound(&level, 1), 0);
    assert_eq!(lower_bound(&level, 2), 2);
    assert_eq!(lower_bound(&level, 9), 4);
    assert_eq!(lower_bound(&level, 10), 5);
    assert!(holds(&level, 3));
    assert!(!holds(&level, 5));
    assert!(remove_one(&mut level, 1));
    assert!(!remove_one(&mut level, 7));
    assert_eq!(level, vec![1, 3, 4, 9]);
}
