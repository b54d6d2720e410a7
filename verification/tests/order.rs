use data_structures::order::{relate_bytes, Ordered, Relation};

#[test]
fn strings_are_ordered_as_their_bytes() {
    assert_eq!("".relate(&""), Relation::Same);
    assert_eq!("".relate(&"a"), Relation::Before);
    assert_eq!("a".relate(&""), Relation::After);
    assert_eq!("abc".relate(&"abd"), Relation::Before);
    assert_eq!("abd".relate(&"abc"), Relation::After);
    assert_eq!("ab".relate(&"abc"), Relation::Before);
    assert_eq!("abc".relate(&"abc"), Relation::Same);
    assert_eq!("b".relate(&"abc"), Relation::After);
    for a in ["", "a", "ab", "b", "ba", "é", "z"] {
        for b in ["", "a", "ab", "b", "ba", "é", "z"] {
            let expected = if a < b {
                Relation::Before
            } else if a == b {
                Relation::Same
            } else {
                Relation::After
            };
            assert_eq!(a.relate(&b), expected);
            assert_eq!(relate_bytes(a.as_bytes(), b.as_bytes()), expected);
        }
    }
}

#[test]
fn numbers_are_ordered_by_value() {
    assert_eq!((-3i32).relate(&2), Relation::Before);
    assert_eq!(2i32.relate(&2), Relation::Same);
    assert_eq!(2i32.relate(&-3), Relation::After);
    assert_eq!(1u64.relate(&u64::MAX), Relation::Before);
    assert_eq!(u64::MAX.relate(&1), Relation::After);
    assert_eq!(7u64.relate(&7), Relation::Same);
}
