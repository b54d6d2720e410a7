use data_structures::single_linked_list::List;

#[test]
fn main_basic() {
    let mut obj = List::new();
    obj.add_at_head(1);
    // 1
    obj.add_at_tail(3);
    // 1 3
    obj.add_at_index(1, 2);
    // 1 2 3
    assert_eq!(Some(1), obj.get(0));
    assert_eq!(Some(2), obj.get(1));
    assert_eq!(Some(3), obj.get(2));

    let mut obj = List::new();
    obj.add_at_head(1);
    // 1
    obj.add_at_tail(3);
    // 1 3
    obj.add_at_index(1, 2);
    // 1 2 3
    assert_eq!(Some(2), obj.get(1));
    obj.delete_at_index(1);
    assert_eq!(Some(3), obj.get(1));

    let mut obj = List::new();
    obj.add_at_head(1);
    // 1
    obj.add_at_tail(3);
    // 1 3
    obj.add_at_index(1, 2);
    // 1 2 3
    assert_eq!(Some(2), obj.get(1));
    obj.delete_at_index(0);
    assert_eq!(Some(2), obj.get(0));

    let mut obj = List::new();
    obj.add_at_index(0, 20);
    // 20
    obj.add_at_index(1, 30);
    // 20 30
    assert_eq!(Some(20), obj.get(0));
    assert_eq!(Some(30), obj.get(1));
}

#[test]
fn list_positions_out_of_range() {
    let mut obj = List::new();
    obj.add_at_index(3, 1);
    assert_eq!(None, obj.get(0));
    obj.add_at_index(-4, 1);
    obj.add_at_index(1, 2);
    obj.add_at_index(5, 9);
    assert_eq!(Some(1), obj.get(0));
    assert_eq!(Some(2), obj.get(1));
    assert_eq!(None, obj.get(2));
    assert_eq!(None, obj.get(-1));
    obj.delete_at_index(-1);
    obj.delete_at_index(2);
    assert_eq!(Some(1), obj.get(0));
    assert_eq!(Some(2), obj.get(1));
    obj.delete_at_index(1);
    assert_eq!(None, obj.get(1));
    obj.delete_at_index(0);
    assert_eq!(None, obj.get(0));
}
