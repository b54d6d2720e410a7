use data_structures::trie_tree::Trie;

fn letters(word: &str) -> Vec<char> {
    word.chars().collect()
}

#[test]
fn test_insertion() {
    let mut trie = Trie::new();
    assert_eq!(trie.get(&letters("")), None);

    trie.insert(&letters("foo"), 1);
    trie.insert(&letters("foobar"), 2);

    let mut trie = Trie::new();
    assert_eq!(trie.get(&vec![1, 2, 3]), None);

    trie.insert(&vec![1, 2, 3], 1);
    trie.insert(&vec![3, 4, 5], 2);
}

#[test]
fn test_get() {
    let mut trie = Trie::new();
    trie.insert(&letters("foo"), 1);
    trie.insert(&letters("foobar"), 2);
    trie.insert(&letters("bar"), 3);
    trie.insert(&letters("baz"), 4);

    assert_eq!(trie.get(&letters("foo")), Some(&1));
    assert_eq!(trie.get(&letters("food")), None);

    let mut trie = Trie::new();
    trie.insert(&vec![1, 2, 3, 4], 1);
    trie.insert(&vec![42], 2);
    trie.insert(&vec![42, 6, 1000], 3);
    trie.insert(&vec![1, 2, 4, 16, 32], 4);

    assert_eq!(trie.get(&vec![42, 6, 1000]), Some(&3));
    assert_eq!(trie.get(&vec![43, 44, 45]), None);
}

#[test]
fn trie_overwrites_and_keeps_the_rest() {
    let mut trie: Trie<u8, u32> = Trie::new();
    trie.insert(&vec![], 0);
    trie.insert(&vec![1], 1);
    trie.insert(&vec![1, 2], 12);
    trie.insert(&vec![1], 100);
    assert_eq!(trie.get(&vec![]), Some(&0));
    assert_eq!(trie.get(&vec![1]), Some(&100));
    assert_eq!(trie.get(&vec![1, 2]), Some(&12));
    assert_eq!(trie.get(&vec![2]), None);
    assert_eq!(trie.get(&vec![1, 2, 3]), None);
}
