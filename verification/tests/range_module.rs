use data_structures::range_module::RangeModule;

#[test]
fn range_module_tracks_ranges() {
    let mut obj = RangeModule::new();
    assert!(!obj.query_range(1, 2));
    obj.add_range(10, 20);
    obj.remove_range(14, 16);
    assert!(obj.query_range(10, 14));
    assert!(!obj.query_range(13, 15));
    assert!(obj.query_range(16, 17));
    assert!(!obj.query_range(9, 11));
    assert!(!obj.query_range(19, 21));
    obj.add_range(14, 16);
    assert!(obj.query_range(10, 20));
}

#[test]
fn range_module_at_its_ends() {
    let mut obj = RangeModule::new();
    obj.add_range(1, 1000000001);
    assert!(obj.query_range(1, 1000000001));
    assert!(obj.query_range(999999999, 1000000001));
    obj.remove_range(1000000000, 1000000001);
    assert!(!obj.query_range(1, 1000000001));
    assert!(obj.query_range(1, 1000000000));
    obj.remove_range(1, 2);
    assert!(!obj.query_range(1, 2));
    assert!(obj.query_range(2, 1000000000));
    obj.remove_range(1, 1000000001);
    assert!(!obj.query_range(5, 6));
}

#[test]
fn range_module_against_a_plain_set() {
    let mut obj = RangeModule::new();
    let mut plain = vec![false; 64];
    let mut seed: u32 = 12345;
    for round in 0..400 {
        seed = seed.wrapping_mul(1664525).wrapping_add(1013904223);
        let a = 1 + (seed >> 8) as usize % 62;
        seed = seed.wrapping_mul(1664525).wrapping_add(1013904223);
        let b = a + 1 + (seed >> 8) as usize % (63 - a);
        match round % 3 {
            0 => {
                obj.add_range(a as i32, b as i32);
                for x in a..b {
                    plain[x] = true;
                }
            }
            1 => {
                obj.remove_range(a as i32, b as i32);
                for x in a..b {
                    plain[x] = false;
                }
            }
            _ => {
                assert_eq!(obj.query_range(a as i32, b as i32), (a..b).all(|x| plain[x]));
            }
        }
    }
}
