//! A trie: a map from sequences of letters to values, in which sequences
//! with a common beginning share their way down from the root.

use std::collections::HashMap;
use std::hash::Hash;
use vstd::prelude::*;
use vstd::std_specs::hash::obeys_key_model;

verus! {

/// A node of the trie: the value of the sequence that leads to it, if it
/// has one, and the nodes one letter further down.
pub struct Node<K, V> {
    children: HashMap<K, Node<K, V>>,
    value: Option<V>,
}

/// A trie from sequences of `K` to `V`.
pub struct Trie<K, V> {
    root: Node<K, V>,
}

/// The value that the trie below `node` holds for `path`.
pub closed spec fn lookup<K, V>(node: Node<K, V>, path: Seq<K>) -> Option<V>
    decreases path.len(),
{
    if path.len() == 0 {
        node.value
    } else if node.children@.contains_key(path[0]) {
        lookup(node.children@[path[0]], path.drop_first())
    } else {
        None
    }
}

impl<K: Eq + Hash + Copy, V> Node<K, V> {
    /// A node without a value or children.
    fn new() -> (node: Self)
        ensures
            node.value is None,
            node.children@ == Map::<K, Node<K, V>>::empty(),
            forall|path: Seq<K>| lookup(node, path) is None,
    {
        let node = Node { children: HashMap::new(), value: None };
        assert forall|path: Seq<K>| lookup(node, path) is None by {
            reveal_with_fuel(lookup, 1);
        }
        node
    }

    /// Stores `value` for the rest of `key` from position `from` on, in
    /// the trie below the node.
    fn put(&mut self, key: &Vec<K>, from: usize, value: V)
        requires
            obeys_key_model::<K>(),
            from <= key.len(),
        ensures
            forall|path: Seq<K>|
                #[trigger] lookup(*final(self), path) == if path == key@.skip(from as int) {
                    Some(value)
                } else {
                    lookup(*old(self), path)
                },
        decreases key.len() - from,
    {
        let ghost rest = key@.skip(from as int);
        if from == key.len() {
            self.value = Some(value);
            proof {
                assert forall|path: Seq<K>|
                    #[trigger] lookup(*self, path) == if path == rest {
                        Some(value)
                    } else {
                        lookup(*old(self), path)
                    } by {
                    if path.len() == 0 {
                        assert(path =~= rest);
                    }
                }
            }
        } else {
            let letter = key[from];
            let ghost was = self.children@;
            let fresh = Node::new();
            let child = self.children.entry(letter).or_insert(fresh);
            let ghost entered = *child;
            child.put(key, from + 1, value);
            proof {
                let later = key@.skip(from + 1);
                assert(rest.len() > 0 && rest[0] == letter);
                assert(rest.drop_first() =~= later);
                assert forall|path: Seq<K>|
                    #[trigger] lookup(*self, path) == if path == rest {
                        Some(value)
                    } else {
                        lookup(*old(self), path)
                    } by {
                    if path.len() > 0 && path[0] == letter {
                        assert(lookup(*self, path) == lookup(self.children@[letter], path.drop_first()));
                        if path.drop_first() == later {
                            assert(path =~= seq![letter] + path.drop_first());
                            assert(rest =~= seq![letter] + later);
                        }
                        if !was.contains_key(letter) {
                            assert(lookup(entered, path.drop_first()) is None);
                        }
                    }
                }
            }
        }
    }
}

impl<K: Eq + Hash + Copy, V> Trie<K, V> {
    /// The trie as a map.
    pub closed spec fn get_spec(&self, key: Seq<K>) -> Option<V> {
        lookup(self.root, key)
    }

    /// An empty trie.
    pub fn new() -> (trie: Self)
        ensures
            forall|key: Seq<K>| trie.get_spec(key) is None,
    {
        Self { root: Node::new() }
    }

    /// The value stored for `key`.
    pub fn get(&self, key: &Vec<K>) -> (found: Option<&V>)
        requires
            obeys_key_model::<K>(),
        ensures
            match found {
                Some(value) => self.get_spec(key@) == Some(*value),
                None => self.get_spec(key@) is None,
            },
    {
        let mut node = &self.root;
        let mut i: usize = 0;
        proof {
            assert(key@.skip(0) =~= key@);
        }
        while i < key.len()
            invariant
                obeys_key_model::<K>(),
                i <= key.len(),
                lookup(self.root, key@) == lookup(*node, key@.skip(i as int)),
            decreases key.len() - i,
        {
            let letter = key[i];
            proof {
                let rest = key@.skip(i as int);
                assert(rest[0] == letter);
                assert(rest.drop_first() =~= key@.skip(i + 1));
            }
            match node.children.get(&letter) {
                Some(child) => {
                    node = child;
                },
                None => {
                    return None;
                },
            }
            i += 1;
        }
        proof {
            assert(key@.skip(i as int).len() == 0);
        }
        node.value.as_ref()
    }

    /// Stores `value` for `key`, in place of what was stored for it. Every
    /// other sequence keeps what it had.
    pub fn insert(&mut self, key: &Vec<K>, value: V)
        requires
            obeys_key_model::<K>(),
        ensures
            forall|other: Seq<K>|
                #[trigger] final(self).get_spec(other) == if other == key@ {
                    Some(value)
                } else {
                    old(self).get_spec(other)
                },
    {
        proof {
            assert(key@.skip(0) =~= key@);
        }
        self.root.put(key, 0, value);
    }
}

} // verus!
