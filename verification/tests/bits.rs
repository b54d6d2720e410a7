use data_structures::bits::{bit_is_set, depth_limit, flip_top_bit, mask_low, power_of_two};
use data_structures::extendible_hashing::key::hash_word;
use data_structures::extendible_hashing::{ExtendiableHash, HashKey};
use std::collections::hash_map::DefaultHasher;
use std::hash::{Hash, Hasher};

#[test]
fn powers_and_masks() {
    assert_eq!(power_of_two(0), 1);
    assert_eq!(power_of_two(3), 8);
    assert_eq!(power_of_two(depth_limit()), 1usize << (usize::BITS - 1));
    assert_eq!(mask_low(0b1011_0110, 0), 0);
    assert_eq!(mask_low(0b1011_0110, 3), 0b110);
    assert_eq!(mask_low(0b1011_0110, 5), 0b1_0110);
    assert_eq!(mask_low(usize::MAX, depth_limit()), usize::MAX >> 1);
    assert_eq!(depth_limit(), usize::BITS as usize - 1);
}

#[test]
fn siblings_differ_in_one_bit() {
    assert_eq!(flip_top_bit(0b000, 1), 0b001);
    assert_eq!(flip_top_bit(0b001, 1), 0b000);
    assert_eq!(flip_top_bit(0b0110, 3), 0b0010);
    assert_eq!(flip_top_bit(0b0010, 3), 0b0110);
    assert_eq!(flip_top_bit(0, depth_limit()), 1usize << (usize::BITS - 2));
}

#[test]
fn bits_of_a_number() {
    assert!(bit_is_set(0b100, 2));
    assert!(!bit_is_set(0b100, 1));
    assert!(!bit_is_set(0b100, 3));
    assert!(bit_is_set(usize::MAX, depth_limit()));
    assert!(!bit_is_set(0, 0));
}

#[test]
fn hash_words_depend_on_the_key() {
    assert_eq!(hash_word(&5u64), hash_word(&5u64));
    assert_eq!(5u64.hash_value(), 5u64.hash_value());
    assert_eq!((-1i64).hash_value(), u64::MAX.hash_value());
    assert!((0..32u64).any(|k| k.hash_value() != 0u64.hash_value()));
    assert_eq!(hash_word(&7u64), 7u64.hash_value() as usize);
}

fn std_hash<T: Hash>(key: &T) -> u64 {
    let mut hasher = DefaultHasher::new();
    key.hash(&mut hasher);
    hasher.finish()
}

#[test]
fn keys_hash_as_the_default_hasher_says() {
    for k in [0u64, 1, 7, 1 << 40, u64::MAX] {
        assert_eq!(k.hash_value(), std_hash(&k));
    }
    for k in [0i64, 1, -1, i64::MIN, i64::MAX] {
        assert_eq!(k.hash_value(), std_hash(&k));
    }
    let dir: ExtendiableHash<u64, u64> = ExtendiableHash::new(5, 2);
    for k in 0..100u64 {
        assert_eq!(dir.slot_for(&k), std_hash(&k) as usize & ((1 << 5) - 1));
    }
}
