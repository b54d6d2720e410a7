//! An unbalanced binary search tree that keeps equal elements, with floor
//! and ceiling queries and traversal in order.

use vstd::prelude::*;

use crate::order::{
    lemma_before_then_not_after, lemma_connected, lemma_irreflexive, lemma_transitive, precedes,
    Ordered, Relation,
};

verus! {

/// A binary search tree. An empty tree is a single node without a value.
pub struct BinarySearchTree<T> {
    left: Option<Box<BinarySearchTree<T>>>,
    right: Option<Box<BinarySearchTree<T>>>,
    value: Option<T>,
}

/// The keys of an optional subtree, in order.
pub open spec fn keys_of<T: Ordered>(tree: Option<Box<BinarySearchTree<T>>>) -> Seq<Seq<int>>
    decreases tree,
{
    match tree {
        Some(node) => node.elements(),
        None => Seq::empty(),
    }
}

/// Whether an optional subtree is a well formed, non-empty tree or absent.
pub open spec fn subtree_wf<T: Ordered>(tree: Option<Box<BinarySearchTree<T>>>) -> bool
    decreases tree,
{
    match tree {
        Some(node) => node.wf() && node.value_key() is Some,
        None => true,
    }
}

/// Whether no key of the sequence comes before an earlier one.
pub open spec fn sorted(keys: Seq<Seq<int>>) -> bool {
    forall|i: int, j: int|
        #![trigger keys[i], keys[j]]
        0 <= i < j < keys.len() ==> !precedes(keys[j], keys[i])
}

/// Whether `found` is the floor of `key` among `keys`: the greatest of
/// them that does not come after `key`, or none if they all do.
pub open spec fn is_floor(keys: Seq<Seq<int>>, key: Seq<int>, found: Option<Seq<int>>) -> bool {
    match found {
        Some(best) => {
            &&& keys.contains(best)
            &&& !precedes(key, best)
            &&& forall|i: int|
                0 <= i < keys.len() && !precedes(key, #[trigger] keys[i]) ==> !precedes(
                    best,
                    keys[i],
                )
        },
        None => forall|i: int| 0 <= i < keys.len() ==> precedes(key, #[trigger] keys[i]),
    }
}

/// Whether `found` is the ceiling of `key` among `keys`: the least of them
/// that does not come before `key`, or none if they all do.
pub open spec fn is_ceil(keys: Seq<Seq<int>>, key: Seq<int>, found: Option<Seq<int>>) -> bool {
    match found {
        Some(best) => {
            &&& keys.contains(best)
            &&& !precedes(best, key)
            &&& forall|i: int|
                0 <= i < keys.len() && !precedes(#[trigger] keys[i], key) ==> !precedes(
                    keys[i],
                    best,
                )
        },
        None => forall|i: int| 0 <= i < keys.len() ==> precedes(#[trigger] keys[i], key),
    }
}

/// Whether `found` is the greatest of `keys`, or none if there are none.
pub open spec fn is_maximum(keys: Seq<Seq<int>>, found: Option<Seq<int>>) -> bool {
    match found {
        Some(best) => keys.contains(best) && forall|i: int|
            0 <= i < keys.len() ==> !precedes(best, #[trigger] keys[i]),
        None => keys.len() == 0,
    }
}

/// Whether `found` is the least of `keys`, or none if there are none.
pub open spec fn is_minimum(keys: Seq<Seq<int>>, found: Option<Seq<int>>) -> bool {
    match found {
        Some(best) => keys.contains(best) && forall|i: int|
            0 <= i < keys.len() ==> !precedes(#[trigger] keys[i], best),
        None => keys.len() == 0,
    }
}

/// The key of an optional element.
pub open spec fn key_of<T: Ordered>(found: Option<&T>) -> Option<Seq<int>> {
    match found {
        Some(value) => Some(value.key()),
        None => None,
    }
}

impl<T: Ordered> BinarySearchTree<T> {
    /// The key of the value at the root, if the tree is not empty.
    pub closed spec fn value_key(&self) -> Option<Seq<int>> {
        match self.value {
            Some(v) => Some(v.key()),
            None => None,
        }
    }

    /// The keys of the elements, in the order in which a traversal visits
    /// them.
    pub closed spec fn elements(&self) -> Seq<Seq<int>>
        decreases self,
    {
        keys_of(self.left) + (match self.value {
            Some(v) => seq![v.key()],
            None => Seq::empty(),
        }) + keys_of(self.right)
    }

    /// The invariant: a node without a value has no children; everything
    /// to the left of a node comes before it, and nothing to its right
    /// does.
    pub closed spec fn wf(&self) -> bool
        decreases self,
    {
        &&& self.value is None ==> self.left is None && self.right is None
        &&& subtree_wf(self.left)
        &&& subtree_wf(self.right)
        &&& self.value matches Some(v) ==> {
            &&& forall|i: int|
                0 <= i < keys_of(self.left).len() ==> precedes(
                    #[trigger] keys_of(self.left)[i],
                    v.key(),
                )
            &&& forall|i: int|
                0 <= i < keys_of(self.right).len() ==> !precedes(
                    #[trigger] keys_of(self.right)[i],
                    v.key(),
                )
        }
    }

    /// The elements of a well formed tree are in order.
    pub proof fn lemma_sorted(&self)
        requires
            self.wf(),
        ensures
            sorted(self.elements()),
        decreases self,
    {
        let l = keys_of(self.left);
        let r = keys_of(self.right);
        if let Some(node) = self.left {
            node.lemma_sorted();
        }
        if let Some(node) = self.right {
            node.lemma_sorted();
        }
        assert(sorted(l));
        assert(sorted(r));
        if let Some(v) = self.value {
            let all = self.elements();
            assert forall|i: int, j: int|
                #![trigger all[i], all[j]]
                0 <= i < j < all.len() implies !precedes(all[j], all[i]) by {
                let k = v.key();
                let n = l.len() as int;
                assert(all == l + seq![k] + r);
                if j < n {
                    assert(all[i] == l[i] && all[j] == l[j]);
                    assert(!precedes(l[j], l[i]));
                } else if i > n {
                    assert(all[i] == r[i - n - 1]);
                    assert(all[j] == r[j - n - 1]);
                    assert(!precedes(r[j - n - 1], r[i - n - 1]));
                } else if i == n {
                    assert(all[i] == k);
                    assert(all[j] == r[j - n - 1]);
                    assert(!precedes(r[j - n - 1], k));
                } else if j == n {
                    assert(all[i] == l[i]);
                    assert(all[j] == k);
                    lemma_connected(all[i], k);
                } else {
                    assert(all[i] == l[i]);
                    assert(all[j] == r[j - n - 1]);
                    if precedes(all[j], all[i]) {
                        lemma_transitive(all[j], all[i], k);
                    }
                }
            }
        } else {
            assert(self.elements() =~= Seq::<Seq<int>>::empty());
        }
    }

    /// A key is among the elements exactly when it is to the left, at the
    /// root, or to the right.
    proof fn lemma_parts(&self)
        ensures
            forall|k: Seq<int>|
                #[trigger] self.elements().contains(k) <==> keys_of(self.left).contains(k)
                    || self.value_key() == Some(k) || keys_of(self.right).contains(k),
            forall|i: int|
                0 <= i < keys_of(self.left).len() ==> self.elements().contains(
                    #[trigger] keys_of(self.left)[i],
                ),
            forall|i: int|
                0 <= i < keys_of(self.right).len() ==> self.elements().contains(
                    #[trigger] keys_of(self.right)[i],
                ),
    {
        let l = keys_of(self.left);
        let r = keys_of(self.right);
        let m: Seq<Seq<int>> = match self.value {
            Some(v) => seq![v.key()],
            None => Seq::empty(),
        };
        let all = self.elements();
        assert(all == l + m + r);
        assert forall|k: Seq<int>| #[trigger]
            all.contains(k) <==> l.contains(k) || self.value_key() == Some(k) || r.contains(
                k,
            ) by {
            if all.contains(k) {
                let i = choose|i: int| 0 <= i < all.len() && all[i] == k;
                if i < l.len() {
                    assert(l[i] == k);
                } else if i < l.len() + m.len() {
                    assert(m[i - l.len()] == k);
                } else {
                    assert(r[i - l.len() - m.len()] == k);
                }
            }
            if l.contains(k) {
                let i = choose|i: int| 0 <= i < l.len() && l[i] == k;
                assert(all[i] == k);
            }
            if self.value_key() == Some(k) {
                assert(all[l.len() as int] == k);
            }
            if r.contains(k) {
                let i = choose|i: int| 0 <= i < r.len() && r[i] == k;
                assert(all[l.len() + m.len() + i] == k);
            }
        }
        assert forall|i: int| 0 <= i < l.len() implies all.contains(#[trigger] l[i]) by {
            assert(all[i] == l[i]);
        }
        assert forall|i: int| 0 <= i < r.len() implies all.contains(#[trigger] r[i]) by {
            assert(all[l.len() + m.len() + i] == r[i]);
        }
    }

    /// An empty tree.
    pub fn new() -> (tree: Self)
        ensures
            tree.wf(),
            tree.elements() == Seq::<Seq<int>>::empty(),
    {
        let tree = Self { left: None, right: None, value: None };
        assert(tree.elements() =~= Seq::<Seq<int>>::empty());
        tree
    }

    /// A tree of the one element `val`.
    fn leaf(val: T) -> (tree: Self)
        ensures
            tree.wf(),
            tree.value_key() == Some(val.key()),
            tree.elements() == seq![val.key()],
    {
        let tree = Self { left: None, right: None, value: Some(val) };
        assert(tree.elements() =~= seq![val.key()]);
        tree
    }

    /// Adds `val` to the tree, after the elements that do not come after
    /// it and before those that do. An element with the same key that is
    /// there already stays, and `val` is stored beside it.
    pub fn insert(&mut self, val: T)
        requires
            old(self).wf(),
        ensures
            final(self).wf(),
            final(self).value_key() is Some,
            exists|place: int|
                0 <= place <= old(self).elements().len() && #[trigger] old(self).elements().insert(
                    place,
                    val.key(),
                ) == final(self).elements(),
        decreases *old(self),
    {
        let ghost key = val.key();
        let ghost before = old(self).elements();
        if self.value.is_none() {
            self.value = Some(val);
            proof {
                assert(before =~= Seq::<Seq<int>>::empty());
                assert(before.insert(0, key) =~= self.elements());
            }
            return ;
        }
        let ghost l = keys_of(self.left);
        let ghost r = keys_of(self.right);
        let ghost root = self.value_key()->0;
        assert(before == l + seq![root] + r);
        let goes_left = match &self.value {
            Some(v) => match v.relate(&val) {
                Relation::After => true,
                _ => false,
            },
            None => false,
        };
        proof {
            lemma_connected(root, key);
        }
        if goes_left {
            let taken = self.left.take();
            match taken {
                Some(mut node) => {
                    node.insert(val);
                    proof {
                        let place = choose|place: int|
                            0 <= place <= l.len() && #[trigger] l.insert(place, key)
                                == node.elements();
                        assert(before.insert(place, key) =~= node.elements() + seq![root] + r);
                    }
                    self.left = Some(node);
                },
                None => {
                    self.left = Some(Box::new(Self::leaf(val)));
                    proof {
                        assert(before.insert(0, key) =~= seq![key] + seq![root] + r);
                    }
                },
            }
        } else {
            let taken = self.right.take();
            match taken {
                Some(mut node) => {
                    node.insert(val);
                    proof {
                        let place = choose|place: int|
                            0 <= place <= r.len() && #[trigger] r.insert(place, key)
                                == node.elements();
                        assert(before.insert(l.len() as int + 1 + place, key) =~= l + seq![root]
                            + node.elements());
                    }
                    self.right = Some(node);
                },
                None => {
                    self.right = Some(Box::new(Self::leaf(val)));
                    proof {
                        assert(before.insert(l.len() as int + 1, key) =~= l + seq![root] + seq![key]);
                    }
                },
            }
        }
    }

    /// Whether the tree holds an element with the key of `val`.
    pub fn search(&self, val: &T) -> (found: bool)
        requires
            self.wf(),
        ensures
            found == self.elements().contains(val.key()),
        decreases self,
    {
        proof {
            self.lemma_parts();
            lemma_irreflexive(val.key());
        }
        match &self.value {
            Some(v) => match v.relate(val) {
                Relation::Before => {
                    proof {
                        lemma_connected(v.key(), val.key());
                        assert forall|i: int| 0 <= i < keys_of(self.left).len() implies keys_of(
                            self.left,
                        )[i] != val.key() by {
                            if keys_of(self.left)[i] == val.key() {
                                lemma_connected(val.key(), v.key());
                            }
                        }
                    }
                    match &self.right {
                        Some(node) => node.search(val),
                        None => false,
                    }
                },
                Relation::Same => true,
                Relation::After => {
                    proof {
                        lemma_connected(v.key(), val.key());
                    }
                    match &self.left {
                        Some(node) => node.search(val),
                        None => false,
                    }
                },
            },
            None => false,
        }
    }

    /// The greatest element that does not come after `value`.
    pub fn floor(&self, value: &T) -> (found: Option<&T>)
        requires
            self.wf(),
        ensures
            is_floor(self.elements(), value.key(), key_of(found)),
        decreases self,
    {
        let ghost all = self.elements();
        let ghost key = value.key();
        let ghost l = keys_of(self.left);
        let ghost r = keys_of(self.right);
        proof {
            self.lemma_parts();
            lemma_irreflexive(key);
        }
        match &self.value {
            Some(v) => {
                let ghost root = v.key();
                proof {
                    lemma_connected(root, key);
                    lemma_irreflexive(root);
                }
                match v.relate(value) {
                    Relation::Before => {
                        let deeper = match &self.right {
                            Some(node) => node.floor(value),
                            None => None,
                        };
                        match deeper {
                            Some(best) => {
                                proof {
                                    let b = best.key();
                                    assert(r.contains(b));
                                    let at = choose|i: int| 0 <= i < r.len() && r[i] == b;
                                    assert(!precedes(r[at], root));
                                    assert forall|i: int|
                                        0 <= i < all.len() && !precedes(
                                            key,
                                            #[trigger] all[i],
                                        ) implies !precedes(b, all[i]) by {
                                        let e = all[i];
                                        assert(all.contains(e));
                                        if l.contains(e) {
                                            let j = choose|j: int| 0 <= j < l.len() && l[j] == e;
                                            assert(precedes(l[j], root));
                                            if precedes(b, e) {
                                                lemma_transitive(b, e, root);
                                            }
                                        } else if r.contains(e) {
                                            let j = choose|j: int| 0 <= j < r.len() && r[j] == e;
                                            assert(!precedes(b, r[j]));
                                        }
                                    }
                                }
                                deeper
                            },
                            None => {
                                proof {
                                    assert forall|i: int|
                                        0 <= i < all.len() && !precedes(
                                            key,
                                            #[trigger] all[i],
                                        ) implies !precedes(root, all[i]) by {
                                        let e = all[i];
                                        assert(all.contains(e));
                                        if l.contains(e) {
                                            let j = choose|j: int| 0 <= j < l.len() && l[j] == e;
                                            assert(precedes(l[j], root));
                                            lemma_connected(e, root);
                                        } else if r.contains(e) {
                                            let j = choose|j: int| 0 <= j < r.len() && r[j] == e;
                                            assert(precedes(key, r[j]));
                                        }
                                    }
                                }
                                Some(v)
                            },
                        }
                    },
                    Relation::Same => Some(v),
                    Relation::After => {
                        let deeper = match &self.left {
                            Some(node) => node.floor(value),
                            None => None,
                        };
                        proof {
                            assert forall|i: int| 0 <= i < r.len() implies precedes(
                                key,
                                #[trigger] r[i],
                            ) by {
                                lemma_before_then_not_after(key, root, r[i]);
                            }
                            match deeper {
                                Some(best) => {
                                    let b = best.key();
                                    assert(l.contains(b));
                                    assert forall|i: int|
                                        0 <= i < all.len() && !precedes(
                                            key,
                                            #[trigger] all[i],
                                        ) implies !precedes(b, all[i]) by {
                                        let e = all[i];
                                        assert(all.contains(e));
                                        if l.contains(e) {
                                            let j = choose|j: int| 0 <= j < l.len() && l[j] == e;
                                            assert(!precedes(b, l[j]));
                                        } else if r.contains(e) {
                                            let j = choose|j: int| 0 <= j < r.len() && r[j] == e;
                                            assert(precedes(key, r[j]));
                                        }
                                    }
                                },
                                None => {
                                    assert forall|i: int| 0 <= i < all.len() implies precedes(
                                        key,
                                        #[trigger] all[i],
                                    ) by {
                                        let e = all[i];
                                        assert(all.contains(e));
                                        if l.contains(e) {
                                            let j = choose|j: int| 0 <= j < l.len() && l[j] == e;
                                            assert(precedes(key, l[j]));
                                        } else if r.contains(e) {
                                            let j = choose|j: int| 0 <= j < r.len() && r[j] == e;
                                            assert(precedes(key, r[j]));
                                        }
                                    }
                                },
                            }
                        }
                        deeper
                    },
                }
            },
            None => {
                proof {
                    assert(all =~= Seq::<Seq<int>>::empty());
                }
                None
            },
        }
    }

    /// The least element that does not come before `key`.
    pub fn ceil(&self, key: &T) -> (found: Option<&T>)
        requires
            self.wf(),
        ensures
            is_ceil(self.elements(), key.key(), key_of(found)),
        decreases self,
    {
        let ghost all = self.elements();
        let ghost wanted = key.key();
        let ghost l = keys_of(self.left);
        let ghost r = keys_of(self.right);
        proof {
            self.lemma_parts();
            lemma_irreflexive(wanted);
        }
        match &self.value {
            Some(v) => {
                let ghost root = v.key();
                proof {
                    lemma_connected(root, wanted);
                    lemma_irreflexive(root);
                }
                match v.relate(key) {
                    Relation::Before => {
                        let deeper = match &self.right {
                            Some(node) => node.ceil(key),
                            None => None,
                        };
                        proof {
                            assert forall|i: int| 0 <= i < l.len() implies precedes(
                                #[trigger] l[i],
                                wanted,
                            ) by {
                                lemma_transitive(l[i], root, wanted);
                            }
                            match deeper {
                                Some(best) => {
                                    let b = best.key();
                                    assert(r.contains(b));
                                    assert forall|i: int|
                                        0 <= i < all.len() && !precedes(
                                            #[trigger] all[i],
                                            wanted,
                                        ) implies !precedes(all[i], b) by {
                                        let e = all[i];
                                        assert(all.contains(e));
                                        if l.contains(e) {
                                            let j = choose|j: int| 0 <= j < l.len() && l[j] == e;
                                            assert(precedes(l[j], wanted));
                                        } else if r.contains(e) {
                                            let j = choose|j: int| 0 <= j < r.len() && r[j] == e;
                                            assert(!precedes(r[j], b));
                                        }
                                    }
                                },
                                None => {
                                    assert forall|i: int| 0 <= i < all.len() implies precedes(
                                        #[trigger] all[i],
                                        wanted,
                                    ) by {
                                        let e = all[i];
                                        assert(all.contains(e));
                                        if l.contains(e) {
                                            let j = choose|j: int| 0 <= j < l.len() && l[j] == e;
                                            assert(precedes(l[j], wanted));
                                        } else if r.contains(e) {
                                            let j = choose|j: int| 0 <= j < r.len() && r[j] == e;
                                            assert(precedes(r[j], wanted));
                                        }
                                    }
                                },
                            }
                        }
                        deeper
                    },
                    Relation::Same => Some(v),
                    Relation::After => {
                        let deeper = match &self.left {
                            Some(node) => node.ceil(key),
                            None => None,
                        };
                        match deeper {
                            Some(best) => {
                                proof {
                                    let b = best.key();
                                    assert(l.contains(b));
                                    let at = choose|i: int| 0 <= i < l.len() && l[i] == b;
                                    assert(precedes(l[at], root));
                                    lemma_connected(b, root);
                                    assert forall|i: int|
                                        0 <= i < all.len() && !precedes(
                                            #[trigger] all[i],
                                            wanted,
                                        ) implies !precedes(all[i], b) by {
                                        let e = all[i];
                                        assert(all.contains(e));
                                        if l.contains(e) {
                                            let j = choose|j: int| 0 <= j < l.len() && l[j] == e;
                                            assert(!precedes(l[j], b));
                                        } else if r.contains(e) {
                                            let j = choose|j: int| 0 <= j < r.len() && r[j] == e;
                                            assert(!precedes(r[j], root));
                                            if precedes(e, b) {
                                                lemma_transitive(e, b, root);
                                            }
                                        }
                                    }
                                }
                                deeper
                            },
                            None => {
                                proof {
                                    assert forall|i: int|
                                        0 <= i < all.len() && !precedes(
                                            #[trigger] all[i],
                                            wanted,
                                        ) implies !precedes(all[i], root) by {
                                        let e = all[i];
                                        assert(all.contains(e));
                                        if l.contains(e) {
                                            let j = choose|j: int| 0 <= j < l.len() && l[j] == e;
                                            assert(precedes(l[j], wanted));
                                        } else if r.contains(e) {
                                            let j = choose|j: int| 0 <= j < r.len() && r[j] == e;
                                            assert(!precedes(r[j], root));
                                        }
                                    }
                                }
                                Some(v)
                            },
                        }
                    },
                }
            },
            None => {
                proof {
                    assert(all =~= Seq::<Seq<int>>::empty());
                }
                None
            },
        }
    }

    /// The greatest element.
    pub fn maximum(&self) -> (found: Option<&T>)
        requires
            self.wf(),
        ensures
            is_maximum(self.elements(), key_of(found)),
        decreases self,
    {
        let ghost all = self.elements();
        let ghost l = keys_of(self.left);
        let ghost r = keys_of(self.right);
        proof {
            self.lemma_parts();
        }
        match &self.right {
            Some(node) => {
                let found = node.maximum();
                proof {
                    node.lemma_parts();
                    let root = self.value_key()->0;
                    let b = key_of(found)->0;
                    assert(r.len() > 0);
                    assert(r.contains(b));
                    let at = choose|i: int| 0 <= i < r.len() && r[i] == b;
                    assert(!precedes(r[at], root));
                    assert forall|i: int| 0 <= i < all.len() implies !precedes(
                        b,
                        #[trigger] all[i],
                    ) by {
                        let e = all[i];
                        assert(all.contains(e));
                        if l.contains(e) {
                            let j = choose|j: int| 0 <= j < l.len() && l[j] == e;
                            assert(precedes(l[j], root));
                            if precedes(b, e) {
                                lemma_transitive(b, e, root);
                            }
                        } else if r.contains(e) {
                            let j = choose|j: int| 0 <= j < r.len() && r[j] == e;
                            assert(!precedes(b, r[j]));
                        }
                    }
                }
                found
            },
            None => match &self.value {
                Some(v) => {
                    proof {
                        let root = v.key();
                        lemma_irreflexive(root);
                        assert(r =~= Seq::<Seq<int>>::empty());
                        assert forall|i: int| 0 <= i < all.len() implies !precedes(
                            root,
                            #[trigger] all[i],
                        ) by {
                            let e = all[i];
                            assert(all.contains(e));
                            if l.contains(e) {
                                let j = choose|j: int| 0 <= j < l.len() && l[j] == e;
                                assert(precedes(l[j], root));
                                lemma_connected(e, root);
                            }
                        }
                    }
                    Some(v)
                },
                None => {
                    proof {
                        assert(all =~= Seq::<Seq<int>>::empty());
                    }
                    None
                },
            },
        }
    }

    /// The least element.
    pub fn minimum(&self) -> (found: Option<&T>)
        requires
            self.wf(),
        ensures
            is_minimum(self.elements(), key_of(found)),
        decreases self,
    {
        let ghost all = self.elements();
        let ghost l = keys_of(self.left);
        let ghost r = keys_of(self.right);
        proof {
            self.lemma_parts();
        }
        match &self.left {
            Some(node) => {
                let found = node.minimum();
                proof {
                    node.lemma_parts();
                    let root = self.value_key()->0;
                    let b = key_of(found)->0;
                    assert(l.len() > 0);
                    assert(l.contains(b));
                    let at = choose|i: int| 0 <= i < l.len() && l[i] == b;
                    assert(precedes(l[at], root));
                    lemma_connected(b, root);
                    assert forall|i: int| 0 <= i < all.len() implies !precedes(
                        #[trigger] all[i],
                        b,
                    ) by {
                        let e = all[i];
                        assert(all.contains(e));
                        if l.contains(e) {
                            let j = choose|j: int| 0 <= j < l.len() && l[j] == e;
                            assert(!precedes(l[j], b));
                        } else if r.contains(e) {
                            let j = choose|j: int| 0 <= j < r.len() && r[j] == e;
                            assert(!precedes(r[j], root));
                            if precedes(e, b) {
                                lemma_transitive(e, b, root);
                            }
                        }
                    }
                }
                found
            },
            None => match &self.value {
                Some(v) => {
                    proof {
                        let root = v.key();
                        lemma_irreflexive(root);
                        assert(l =~= Seq::<Seq<int>>::empty());
                        assert forall|i: int| 0 <= i < all.len() implies !precedes(
                            #[trigger] all[i],
                            root,
                        ) by {
                            let e = all[i];
                            assert(all.contains(e));
                            if r.contains(e) {
                                let j = choose|j: int| 0 <= j < r.len() && r[j] == e;
                                assert(!precedes(r[j], root));
                            }
                        }
                    }
                    Some(v)
                },
                None => {
                    proof {
                        assert(all =~= Seq::<Seq<int>>::empty());
                    }
                    None
                },
            },
        }
    }

    /// A traversal of the tree in order.
    pub fn iter(&self) -> (walk: BinarySearchTreeIter<'_, T>)
        requires
            self.wf(),
        ensures
            walk.wf(),
            walk.remaining() == self.elements(),
    {
        BinarySearchTreeIter::new(self)
    }
}

/// A traversal in order: a stack of the nodes that are yet to be visited
/// themselves, each with its right subtree.
pub struct BinarySearchTreeIter<'a, T> {
    stack: Vec<&'a BinarySearchTree<T>>,
}

/// The keys of a node and of everything to its right.
pub open spec fn visit<T: Ordered>(node: &BinarySearchTree<T>) -> Seq<Seq<int>> {
    (match node.value_key() {
        Some(k) => seq![k],
        None => Seq::empty(),
    }) + node.right_keys()
}

/// The keys that a stack of nodes stands for, the top of the stack first.
pub open spec fn pending<T: Ordered>(stack: Seq<&BinarySearchTree<T>>) -> Seq<Seq<int>>
    decreases stack.len(),
{
    if stack.len() == 0 {
        Seq::empty()
    } else {
        visit(stack.last()) + pending(stack.drop_last())
    }
}

impl<T: Ordered> BinarySearchTree<T> {
    /// The keys to the left of the root.
    pub closed spec fn left_keys(&self) -> Seq<Seq<int>> {
        keys_of(self.left)
    }

    /// The keys to the right of the root.
    pub closed spec fn right_keys(&self) -> Seq<Seq<int>> {
        keys_of(self.right)
    }

    /// The elements of a tree are those to the left of the root, the root
    /// and those to its right.
    pub proof fn lemma_elements(&self)
        ensures
            self.elements() == self.left_keys() + visit(self),
    {
        assert(self.elements() =~= self.left_keys() + visit(self));
    }
}

impl<'a, T: Ordered> BinarySearchTreeIter<'a, T> {
    /// The keys of the elements yet to come, in the order in which `next`
    /// hands them out.
    pub closed spec fn remaining(&self) -> Seq<Seq<int>> {
        pending(self.stack@)
    }

    /// The keys to the left of the node on top of the stack.
    pub closed spec fn unvisited(&self) -> Seq<Seq<int>> {
        if self.stack@.len() > 0 {
            self.stack@.last().left_keys()
        } else {
            Seq::empty()
        }
    }

    /// Whether there is a node on the stack.
    pub closed spec fn active(&self) -> bool {
        self.stack@.len() > 0
    }

    /// The invariant: every node on the stack is a well formed tree, and
    /// none is empty unless it is the only one.
    pub closed spec fn wf(&self) -> bool {
        forall|i: int|
            0 <= i < self.stack@.len() ==> (#[trigger] self.stack@[i]).wf() && (
            self.stack@[i].value_key() is Some || self.stack@.len() == 1)
    }

    /// A traversal of `tree` from its least element on.
    pub fn new(tree: &'a BinarySearchTree<T>) -> (walk: BinarySearchTreeIter<'a, T>)
        requires
            tree.wf(),
        ensures
            walk.wf(),
            walk.remaining() == tree.elements(),
    {
        let mut stack: Vec<&'a BinarySearchTree<T>> = Vec::new();
        stack.push(tree);
        let mut walk = BinarySearchTreeIter { stack };
        proof {
            tree.lemma_elements();
            assert(walk.stack@.drop_last() =~= Seq::empty());
            assert(pending(walk.stack@.drop_last()) =~= Seq::<Seq<int>>::empty());
            assert(walk.remaining() =~= visit(tree));
        }
        walk.dfs();
        walk
    }

    /// Stacks the left spine below the node on top of the stack, so that
    /// the elements to its left come before it.
    pub fn dfs(&mut self)
        requires
            old(self).wf(),
            old(self).active(),
        ensures
            final(self).wf(),
            final(self).active(),
            final(self).remaining() == old(self).unvisited() + old(self).remaining(),
    {
        proof {
            assert(self.unvisited() + self.remaining() =~= old(self).unvisited() + old(
                self,
            ).remaining());
        }
        loop
            invariant
                self.wf(),
                self.stack@.len() > 0,
                self.unvisited() + self.remaining() == old(self).unvisited() + old(
                    self,
                ).remaining(),
            ensures
                self.wf(),
                self.stack@.len() > 0,
                self.remaining() == old(self).unvisited() + old(self).remaining(),
            decreases self.stack@.last(),
        {
            let top: &'a BinarySearchTree<T> = self.stack[self.stack.len() - 1];
            let ghost below = self.stack@;
            match &top.left {
                Some(child) => {
                    let next: &'a BinarySearchTree<T> = &**child;
                    self.stack.push(next);
                    proof {
                        assert(self.stack@.drop_last() =~= below);
                        next.lemma_elements();
                        assert(self.unvisited() + self.remaining() =~= next.left_keys() + (visit(
                            next,
                        ) + pending(below)));
                        assert(next.left_keys() + (visit(next) + pending(below)) =~= (
                        next.left_keys() + visit(next)) + pending(below));
                    }
                },
                None => {
                    proof {
                        assert(self.unvisited() =~= Seq::<Seq<int>>::empty());
                        assert(self.unvisited() + self.remaining() =~= self.remaining());
                    }
                    break ;
                },
            }
        }
    }

    /// The next element in order, if any is left.
    pub fn next(&mut self) -> (found: Option<&'a T>)
        requires
            old(self).wf(),
        ensures
            final(self).wf(),
            match found {
                Some(value) => old(self).remaining().len() > 0 && value.key() == old(
                    self,
                ).remaining()[0] && final(self).remaining() == old(self).remaining().drop_first(),
                None => old(self).remaining().len() == 0 && final(self).remaining() == old(
                    self,
                ).remaining(),
            },
    {
        if self.stack.is_empty() {
            None
        } else {
            let ghost before = self.stack@;
            let popped = self.stack.pop();
            let node: &'a BinarySearchTree<T> = popped.unwrap();
            let ghost rest = self.stack@;
            proof {
                assert(rest =~= before.drop_last());
                assert(before.last() == node);
                assert(old(self).remaining() == visit(node) + pending(rest));
            }
            match &node.right {
                Some(rchild) => {
                    let next: &'a BinarySearchTree<T> = &**rchild;
                    self.stack.push(next);
                    proof {
                        assert(self.stack@.drop_last() =~= rest);
                        next.lemma_elements();
                        assert forall|i: int| 0 <= i < self.stack@.len() implies (
                        #[trigger] self.stack@[i]).wf() && (self.stack@[i].value_key() is Some
                            || self.stack@.len() == 1) by {
                            if i < rest.len() {
                                assert(self.stack@[i] == before[i]);
                            }
                        }
                    }
                    self.dfs();
                    proof {
                        assert(self.remaining() =~= (next.left_keys() + visit(next)) + pending(
                            rest,
                        ));
                        assert(self.remaining() =~= old(self).remaining().drop_first());
                    }
                },
                None => {
                    proof {
                        assert(node.right_keys() =~= Seq::<Seq<int>>::empty());
                        assert forall|i: int| 0 <= i < self.stack@.len() implies (
                        #[trigger] self.stack@[i]).wf() && (self.stack@[i].value_key() is Some
                            || self.stack@.len() == 1) by {
                            assert(self.stack@[i] == before[i]);
                        }
                        if node.value_key() is Some {
                            assert(self.remaining() =~= old(self).remaining().drop_first());
                        } else {
                            assert(before.len() == 1);
                            assert(rest =~= Seq::empty());
                            assert(self.remaining() =~= Seq::<Seq<int>>::empty());
                            assert(old(self).remaining() =~= Seq::<Seq<int>>::empty());
                        }
                    }
                },
            }
            node.value.as_ref()
        }
    }
}

} // verus!
