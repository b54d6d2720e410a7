use data_structures::bst::BinarySearchTree;

fn prequel_memes_tree() -> BinarySearchTree<&'static str> {
    let mut tree = BinarySearchTree::new();
    tree.insert("hello there");
    tree.insert("general kenobi");
    tree.insert("you are a bold one");
    tree.insert("kill him");
    tree.insert("back away...I will deal with this jedi slime myself");
    tree.insert("your move");
    tree.insert("you fool");
    tree
}

#[test]
fn test_search() {
    let tree = prequel_memes_tree();
    assert!(tree.search(&"hello there"));
    assert!(tree.search(&"you are a bold one"));
    assert!(tree.search(&"general kenobi"));
    assert!(tree.search(&"you fool"));
    assert!(tree.search(&"kill him"));
    assert!(
        !tree.search(&"but i was going to tosche station to pick up some power converters",)
    );
    assert!(!tree.search(&"only a sith deals in absolutes"));
    assert!(!tree.search(&"you underestimate my power"));
}

#[test]
fn test_maximum_and_minimum() {
    let tree = prequel_memes_tree();
    assert_eq!(*tree.maximum().unwrap(), "your move");
    assert_eq!(
        *tree.minimum().unwrap(),
        "back away...I will deal with this jedi slime myself"
    );
    let mut tree2: BinarySearchTree<i32> = BinarySearchTree::new();
    assert!(tree2.maximum().is_none());
    assert!(tree2.minimum().is_none());
    tree2.insert(0);
    assert_eq!(*tree2.minimum().unwrap(), 0);
    assert_eq!(*tree2.maximum().unwrap(), 0);
    tree2.insert(-5);
    assert_eq!(*tree2.minimum().unwrap(), -5);
    assert_eq!(*tree2.maximum().unwrap(), 0);
    tree2.insert(5);
    assert_eq!(*tree2.minimum().unwrap(), -5);
    assert_eq!(*tree2.maximum().unwrap(), 5);
}

#[test]
fn test_floor_and_ceil() {
    let tree = prequel_memes_tree();
    assert_eq!(*tree.floor(&"hello there").unwrap(), "hello there");
    assert_eq!(
        *tree
            .floor(&"these are not the droids you're looking for")
            .unwrap(),
        "kill him"
    );
    assert!(tree.floor(&"another death star").is_none());
    assert_eq!(*tree.floor(&"you fool").unwrap(), "you fool");
    assert_eq!(
        *tree.floor(&"but i was going to tasche station").unwrap(),
        "back away...I will deal with this jedi slime myself"
    );
    assert_eq!(
        *tree.floor(&"you underestimate my power").unwrap(),
        "you fool"
    );
    assert_eq!(*tree.floor(&"your new empire").unwrap(), "your move");
    assert_eq!(*tree.ceil(&"hello there").unwrap(), "hello there");
    assert_eq!(
        *tree
            .ceil(&"these are not the droids you're looking for")
            .unwrap(),
        "you are a bold one"
    );
    assert_eq!(
        *tree.ceil(&"another death star").unwrap(),
        "back away...I will deal with this jedi slime myself"
    );
    assert_eq!(*tree.ceil(&"you fool").unwrap(), "you fool");
    assert_eq!(
        *tree.ceil(&"but i was going to tasche station").unwrap(),
        "general kenobi"
    );
    assert_eq!(
        *tree.ceil(&"you underestimate my power").unwrap(),
        "your move"
    );
    assert!(tree.ceil(&"your new empire").is_none());
}

#[test]
fn test_iterator() {
    let tree = prequel_memes_tree();
    let mut iter = tree.iter();
    assert_eq!(
        iter.next().unwrap(),
        &"back away...I will deal with this jedi slime myself"
    );
    assert_eq!(iter.next().unwrap(), &"general kenobi");
    assert_eq!(iter.next().unwrap(), &"hello there");
    assert_eq!(iter.next().unwrap(), &"kill him");
    assert_eq!(iter.next().unwrap(), &"you are a bold one");
    assert_eq!(iter.next().unwrap(), &"you fool");
    assert_eq!(iter.next().unwrap(), &"your move");
    assert_eq!(iter.next(), None);
    assert_eq!(iter.next(), None);
}

#[test]
fn bst_keeps_equal_elements() {
    let mut tree: BinarySearchTree<i32> = BinarySearchTree::new();
    tree.insert(2);
    tree.insert(1);
    tree.insert(2);
    tree.insert(3);
    let mut seen = vec![];
    let mut iter = tree.iter();
    while let Some(v) = iter.next() {
        seen.push(*v);
    }
    assert_eq!(seen, vec![1, 2, 2, 3]);
    assert_eq!(tree.floor(&0), None);
    assert_eq!(tree.ceil(&4), None);
    assert_eq!(tree.floor(&4), Some(&3));
    assert_eq!(tree.ceil(&0), Some(&1));
}

#[test]
fn bst_of_an_empty_tree() {
    let tree: BinarySearchTree<u64> = BinarySearchTree::new();
    assert!(!tree.search(&1));
    assert_eq!(tree.floor(&1), None);
    assert_eq!(tree.ceil(&1), None);
    assert_eq!(tree.iter().next(), None);
}
