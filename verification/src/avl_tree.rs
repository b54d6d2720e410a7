//! A set kept in an AVL tree: a binary search tree whose two subtrees, at
//! every node, differ in height by one at most.

use vstd::prelude::*;

use crate::order::{lemma_connected, lemma_irreflexive, lemma_transitive, precedes, Ordered, Relation};

verus! {

/// A node of the tree, with the height of the subtree below it.
pub struct AVLNode<T> {
    value: T,
    left: Option<Box<AVLNode<T>>>,
    right: Option<Box<AVLNode<T>>>,
    height: usize,
}

/// One of the two sides of a node.
#[derive(Clone, Copy)]
pub enum Side {
    Left,
    Right,
}

impl Side {
    /// The other side.
    pub fn not(self) -> (other: Side)
        ensures
            other == self.flipped(),
    {
        match self {
            Side::Left => Side::Right,
            Side::Right => Side::Left,
        }
    }

    /// The other side.
    pub open spec fn flipped(self) -> Side {
        match self {
            Side::Left => Side::Right,
            Side::Right => Side::Left,
        }
    }
}

/// The keys of an optional subtree, in order.
pub open spec fn keys_of<T: Ordered>(tree: Option<Box<AVLNode<T>>>) -> Seq<Seq<int>>
    decreases tree,
{
    match tree {
        Some(node) => node.keys(),
        None => Seq::empty(),
    }
}

/// The height of an optional subtree: the number of nodes on its longest
/// path from the root down.
pub open spec fn height_of<T: Ordered>(tree: Option<Box<AVLNode<T>>>) -> nat
    decreases tree,
{
    match tree {
        Some(node) => node.tall(),
        None => 0,
    }
}

/// Whether every node of an optional subtree records its true height.
pub closed spec fn measured<T: Ordered>(tree: Option<Box<AVLNode<T>>>) -> bool
    decreases tree,
{
    match tree {
        Some(node) => node.height == node.tall() && measured(node.left) && measured(node.right),
        None => true,
    }
}

/// Whether the two subtrees of every node of an optional subtree differ in
/// height by one at most.
pub closed spec fn balanced<T: Ordered>(tree: Option<Box<AVLNode<T>>>) -> bool
    decreases tree,
{
    match tree {
        Some(node) => {
            &&& height_of(node.left) <= height_of(node.right) + 1
            &&& height_of(node.right) <= height_of(node.left) + 1
            &&& balanced(node.left)
            &&& balanced(node.right)
        },
        None => true,
    }
}

/// Whether every key of the sequence comes before every later one.
pub open spec fn ascending(keys: Seq<Seq<int>>) -> bool {
    forall|i: int, j: int|
        #![trigger keys[i], keys[j]]
        0 <= i < j < keys.len() ==> precedes(keys[i], keys[j])
}

impl<T: Ordered> AVLNode<T> {
    /// The keys of the subtree below the node, in order.
    pub closed spec fn keys(&self) -> Seq<Seq<int>>
        decreases self,
    {
        keys_of(self.left) + seq![self.value.key()] + keys_of(self.right)
    }

    /// The true height of the subtree below the node.
    pub closed spec fn tall(&self) -> nat
        decreases self,
    {
        1 + if height_of(self.left) >= height_of(self.right) {
            height_of(self.left)
        } else {
            height_of(self.right)
        }
    }

    /// Whether both subtrees are measured and balanced: what the node
    /// itself may still lack is its own height and its own balance.
    pub closed spec fn settled_below(&self) -> bool {
        &&& measured(self.left)
        &&& measured(self.right)
        &&& balanced(self.left)
        &&& balanced(self.right)
    }

    /// The recorded height of the subtree on `side`.
    fn height(&self, side: Side) -> (h: usize)
        requires
            measured(self.left),
            measured(self.right),
        ensures
            h == match side {
                Side::Left => height_of(self.left),
                Side::Right => height_of(self.right),
            },
    {
        match self.child(side) {
            Some(n) => n.height,
            None => 0,
        }
    }

    /// Records the height of the node from those of its subtrees.
    fn update_height(&mut self)
        requires
            measured(old(self).left),
            measured(old(self).right),
            height_of(old(self).left) < usize::MAX,
            height_of(old(self).right) < usize::MAX,
        ensures
            final(self).height == final(self).tall(),
            final(self).left == old(self).left,
            final(self).right == old(self).right,
            final(self).value == old(self).value,
    {
        let l = self.height(Side::Left);
        let r = self.height(Side::Right);
        self.height = 1 + if l >= r {
            l
        } else {
            r
        };
    }

    /// The height of the left subtree less that of the right.
    pub fn balance_factor(&self) -> (factor: isize)
        requires
            self.measured_below(),
            self.nearly_balanced(),
        ensures
            factor == self.lean(),
    {
        let left = self.height(Side::Left);
        let right = self.height(Side::Right);
        if left < right {
            -((right - left) as isize)
        } else {
            (left - right) as isize
        }
    }

    /// Whether the node records its true height, and its subtrees theirs.
    pub closed spec fn measured_here(&self) -> bool {
        self.height == self.tall() && measured(self.left) && measured(self.right)
    }

    /// Whether the node is balanced, and its subtrees are.
    pub closed spec fn balanced_here(&self) -> bool {
        &&& height_of(self.left) <= height_of(self.right) + 1
        &&& height_of(self.right) <= height_of(self.left) + 1
        &&& balanced(self.left)
        &&& balanced(self.right)
    }

    /// Whether both subtrees record their true heights.
    pub closed spec fn measured_below(&self) -> bool {
        measured(self.left) && measured(self.right)
    }

    /// By how much the left subtree is taller than the right.
    pub closed spec fn lean(&self) -> int {
        height_of(self.left) - height_of(self.right)
    }

    /// Whether the node has the value and the subtrees of `other`.
    pub closed spec fn same_below(&self, other: &Self) -> bool {
        self.left == other.left && self.right == other.right && self.value == other.value
    }

    /// By how much the node may be out of balance before `rebalance`: by
    /// two, as one insertion or removal below it can leave it.
    pub closed spec fn nearly_balanced(&self) -> bool {
        &&& height_of(self.left) <= height_of(self.right) + 2
        &&& height_of(self.right) <= height_of(self.left) + 2
    }

    /// Turns the subtree towards `side`: the child on the other side
    /// becomes the root, and the old root its child on `side`.
    #[verifier::rlimit(80)]
    fn rotate(&mut self, side: Side)
        requires
            measured(old(self).left),
            measured(old(self).right),
            match side {
                Side::Left => {
                    &&& old(self).right is Some
                    &&& height_of(old(self).left) + 1 < usize::MAX
                    &&& height_of(old(self).right->0.left) + 1 < usize::MAX
                },
                Side::Right => {
                    &&& old(self).left is Some
                    &&& height_of(old(self).right) + 1 < usize::MAX
                    &&& height_of(old(self).left->0.right) + 1 < usize::MAX
                },
            },
        ensures
            final(self).keys() == old(self).keys(),
            final(self).measured_here(),
            match side {
                Side::Left => {
                    &&& final(self).right == old(self).right->0.right
                    &&& final(self).left is Some
                    &&& final(self).left->0.left == old(self).left
                    &&& final(self).left->0.right == old(self).right->0.left
                },
                Side::Right => {
                    &&& final(self).left == old(self).left->0.left
                    &&& final(self).right is Some
                    &&& final(self).right->0.right == old(self).right
                    &&& final(self).right->0.left == old(self).left->0.right
                },
            },
    {
        let ghost a = keys_of(self.left);
        let ghost c = keys_of(self.right);
        let ghost x = self.value.key();
        proof {
            reveal_with_fuel(AVLNode::keys, 3);
            reveal_with_fuel(keys_of, 3);
            reveal_with_fuel(AVLNode::tall, 3);
            reveal_with_fuel(height_of, 3);
        }
        let away = side.not();
        let mut subtree = self.child_mut(away).take().unwrap();
        let ghost y = subtree.value.key();
        let ghost b = keys_of(subtree.left);
        let ghost d = keys_of(subtree.right);
        let new_child = subtree.child_mut(side).take();
        *self.child_mut(away) = new_child;
        self.update_height();
        std::mem::swap(self, &mut *subtree);
        *self.child_mut(side) = Some(subtree);
        self.update_height();
        proof {
            match side {
                Side::Left => {
                    assert(old(self).keys() =~= a + seq![x] + (b + seq![y] + d));
                    assert(self.keys() =~= (a + seq![x] + b) + seq![y] + d);
                },
                Side::Right => {
                    assert(old(self).keys() =~= (b + seq![y] + d) + seq![x] + c);
                    assert(self.keys() =~= b + seq![y] + (d + seq![x] + c));
                },
            }
        }
    }

    /// Restores the height and the balance of a node whose subtrees are in
    /// order and differ in height by two at most, by one rotation or two.
    /// The keys stay as they are, in the same order; the height stays or
    /// falls by one, and stays where the node was in balance.
    #[verifier::rlimit(50)]
    pub fn rebalance(&mut self)
        requires
            old(self).settled_below(),
            old(self).nearly_balanced(),
            old(self).tall() <= usize::MAX,
        ensures
            final(self).keys() == old(self).keys(),
            final(self).measured_here(),
            final(self).balanced_here(),
            final(self).tall() == old(self).tall() || final(self).tall() + 1 == old(self).tall(),
            old(self).balanced_here() ==> final(self).tall() == old(self).tall(),
            old(self).balanced_here() ==> final(self).same_below(old(self)),
    {
        proof {
            reveal_with_fuel(AVLNode::tall, 4);
            reveal_with_fuel(height_of, 4);
            reveal_with_fuel(balanced, 4);
            reveal_with_fuel(measured, 4);
        }
        self.update_height();
        let factor = self.balance_factor();
        if factor != 2 && factor != -2 {
            return ;
        }
        if factor < 0 {
            let taken = self.right.take();
            let mut subtree = taken.unwrap();
            let sub_factor = subtree.balance_factor();
            if sub_factor > 0 {
                subtree.rotate(Side::Right);
            }
            self.right = Some(subtree);
            self.rotate(Side::Left);
        } else {
            let taken = self.left.take();
            let mut subtree = taken.unwrap();
            let sub_factor = subtree.balance_factor();
            if sub_factor < 0 {
                subtree.rotate(Side::Left);
            }
            self.left = Some(subtree);
            self.rotate(Side::Right);
        }
    }
}

/// Whether an optional subtree is a sound AVL tree: its keys ascend, every
/// node records its height, and every node is in balance.
pub open spec fn sound<T: Ordered>(tree: Option<Box<AVLNode<T>>>) -> bool {
    measured(tree) && balanced(tree) && ascending(keys_of(tree))
}

/// The parts of an ascending sequence ascend, and what stands between them
/// comes after the one and before the other.
pub proof fn lemma_ascending_parts(l: Seq<Seq<int>>, k: Seq<int>, r: Seq<Seq<int>>)
    requires
        ascending(l + seq![k] + r),
    ensures
        ascending(l),
        ascending(r),
        forall|i: int| 0 <= i < l.len() ==> precedes(#[trigger] l[i], k),
        forall|i: int| 0 <= i < r.len() ==> precedes(k, #[trigger] r[i]),
        !l.contains(k),
        !r.contains(k),
{
    let all = l + seq![k] + r;
    let n = l.len() as int;
    assert(all[n] == k);
    assert forall|i: int, j: int|
        #![trigger l[i], l[j]]
        0 <= i < j < l.len() implies precedes(l[i], l[j]) by {
        assert(all[i] == l[i] && all[j] == l[j]);
    }
    assert forall|i: int, j: int|
        #![trigger r[i], r[j]]
        0 <= i < j < r.len() implies precedes(r[i], r[j]) by {
        assert(all[n + 1 + i] == r[i] && all[n + 1 + j] == r[j]);
    }
    assert forall|i: int| 0 <= i < l.len() implies precedes(#[trigger] l[i], k) by {
        assert(all[i] == l[i]);
    }
    assert forall|i: int| 0 <= i < r.len() implies precedes(k, #[trigger] r[i]) by {
        assert(all[n + 1 + i] == r[i]);
    }
    lemma_irreflexive(k);
}

/// Two ascending sequences and a key between them make an ascending
/// sequence.
pub proof fn lemma_ascending_join(l: Seq<Seq<int>>, k: Seq<int>, r: Seq<Seq<int>>)
    requires
        ascending(l),
        ascending(r),
        forall|i: int| 0 <= i < l.len() ==> precedes(#[trigger] l[i], k),
        forall|i: int| 0 <= i < r.len() ==> precedes(k, #[trigger] r[i]),
    ensures
        ascending(l + seq![k] + r),
{
    let all = l + seq![k] + r;
    let n = l.len() as int;
    assert forall|i: int, j: int|
        #![trigger all[i], all[j]]
        0 <= i < j < all.len() implies precedes(all[i], all[j]) by {
        if j < n {
            assert(all[i] == l[i] && all[j] == l[j]);
        } else if j == n {
            assert(all[i] == l[i]);
        } else if i < n {
            assert(all[i] == l[i] && all[j] == r[j - n - 1]);
            lemma_transitive(l[i], k, r[j - n - 1]);
        } else if i == n {
            assert(all[j] == r[j - n - 1]);
        } else {
            assert(all[i] == r[i - n - 1] && all[j] == r[j - n - 1]);
        }
    }
}

/// A key is in a sequence put together of two and a key between them
/// exactly when it is in one of the two or is that key.
pub proof fn lemma_contains_parts(l: Seq<Seq<int>>, k: Seq<int>, r: Seq<Seq<int>>, x: Seq<int>)
    ensures
        (l + seq![k] + r).contains(x) <==> l.contains(x) || x == k || r.contains(x),
{
    let all = l + seq![k] + r;
    let n = l.len() as int;
    if all.contains(x) {
        let i = choose|i: int| 0 <= i < all.len() && all[i] == x;
        if i < n {
            assert(l[i] == x);
        } else if i > n {
            assert(r[i - n - 1] == x);
        }
    }
    if l.contains(x) {
        let i = choose|i: int| 0 <= i < l.len() && l[i] == x;
        assert(all[i] == x);
    }
    if r.contains(x) {
        let i = choose|i: int| 0 <= i < r.len() && r[i] == x;
        assert(all[n + 1 + i] == x);
    }
    assert(all[n] == k);
}

/// A tree is no taller than it has keys.
pub proof fn lemma_height_bound<T: Ordered>(tree: Option<Box<AVLNode<T>>>)
    ensures
        height_of(tree) <= keys_of(tree).len(),
    decreases tree,
{
    if let Some(node) = tree {
        lemma_height_bound(node.left);
        lemma_height_bound(node.right);
    }
}

/// A set of elements, kept in an AVL tree.
pub struct AVLTree<T> {
    root: Option<Box<AVLNode<T>>>,
    length: usize,
}

impl<T: Ordered> AVLNode<T> {
    /// The key of the value at the node.
    pub closed spec fn key_here(&self) -> Seq<int> {
        self.value.key()
    }

    /// Whether the node has no subtrees.
    pub closed spec fn alone(&self) -> bool {
        self.left is None && self.right is None
    }

    /// The value at the node.
    pub fn value(&self) -> (value: &T)
        ensures
            value.key() == self.key_here(),
    {
        &self.value
    }

    /// The subtree on `side`, to change.
    fn child_mut(&mut self, side: Side) -> (child: &mut Option<Box<AVLNode<T>>>)
        ensures
            *child == match side {
                Side::Left => old(self).left,
                Side::Right => old(self).right,
            },
            match side {
                Side::Left => final(self).left == *final(child) && final(self).right == old(
                    self,
                ).right,
                Side::Right => final(self).right == *final(child) && final(self).left == old(
                    self,
                ).left,
            },
            final(self).value == old(self).value,
            final(self).height == old(self).height,
    {
        match side {
            Side::Left => &mut self.left,
            Side::Right => &mut self.right,
        }
    }

    /// The subtree on `side`.
    fn child(&self, side: Side) -> (child: &Option<Box<AVLNode<T>>>)
        ensures
            *child == match side {
                Side::Left => self.left,
                Side::Right => self.right,
            },
    {
        match side {
            Side::Left => &self.left,
            Side::Right => &self.right,
        }
    }
}

impl<T: Ordered> AVLTree<T> {
    /// The keys of the elements, in ascending order.
    pub closed spec fn elements(&self) -> Seq<Seq<int>> {
        keys_of(self.root)
    }

    /// The invariant: the tree is a sound AVL tree, and the length is the
    /// number of its elements.
    pub closed spec fn wf(&self) -> bool {
        sound(self.root) && self.length == keys_of(self.root).len()
    }

    /// The elements of a well formed tree ascend, so that none occurs
    /// twice.
    pub proof fn lemma_ascending(&self)
        requires
            self.wf(),
        ensures
            ascending(self.elements()),
    {
    }

    /// An empty tree.
    pub fn new() -> (tree: Self)
        ensures
            tree.wf(),
            tree.elements() == Seq::<Seq<int>>::empty(),
    {
        Self { root: None, length: 0 }
    }

    /// Adds `value` to the set and says whether it was new to it.
    pub fn insert(&mut self, value: T) -> (inserted: bool)
        requires
            old(self).wf(),
            old(self).elements().len() < usize::MAX,
        ensures
            final(self).wf(),
            inserted == !old(self).elements().contains(value.key()),
            !inserted ==> final(self).elements() == old(self).elements(),
            inserted ==> exists|place: int|
                0 <= place <= old(self).elements().len() && #[trigger] old(self).elements().insert(
                    place,
                    value.key(),
                ) == final(self).elements(),
    {
        let inserted = Self::tree_insert(&mut self.root, value);
        if inserted {
            self.length += 1;
        }
        inserted
    }

    /// Adds `value` to the subtree `tree`, restoring the balance on the
    /// way back up, and says whether it was new to it.
    fn tree_insert(tree: &mut Option<Box<AVLNode<T>>>, value: T) -> (inserted: bool)
        requires
            sound(*old(tree)),
            keys_of(*old(tree)).len() < usize::MAX,
        ensures
            sound(*final(tree)),
            inserted == !keys_of(*old(tree)).contains(value.key()),
            !inserted ==> keys_of(*final(tree)) == keys_of(*old(tree)) && height_of(*final(tree))
                == height_of(*old(tree)),
            inserted ==> exists|place: int|
                0 <= place <= keys_of(*old(tree)).len() && #[trigger] keys_of(*old(tree)).insert(
                    place,
                    value.key(),
                ) == keys_of(*final(tree)),
            height_of(*final(tree)) == height_of(*old(tree)) || height_of(*final(tree))
                == height_of(*old(tree)) + 1,
        decreases *old(tree),
    {
        let ghost key = value.key();
        let ghost before = keys_of(*tree);
        let taken = tree.take();
        match taken {
            Some(mut node) => {
                let ghost l = keys_of(node.left);
                let ghost r = keys_of(node.right);
                let ghost root = node.value.key();
                proof {
                    assert(before == l + seq![root] + r);
                    lemma_ascending_parts(l, root, r);
                    lemma_contains_parts(l, root, r, key);
                    lemma_connected(key, root);
                    lemma_irreflexive(key);
                    lemma_height_bound(node.left);
                    lemma_height_bound(node.right);
                }
                let inserted = match value.relate(&node.value) {
                    Relation::Before => {
                        proof {
                            assert(!r.contains(key)) by {
                                if r.contains(key) {
                                    let i = choose|i: int| 0 <= i < r.len() && r[i] == key;
                                    assert(precedes(root, r[i]));
                                }
                            }
                        }
                        let grown = Self::tree_insert(&mut node.left, value);
                        proof {
                            if grown {
                                let l2 = keys_of(node.left);
                                let place = choose|place: int|
                                    0 <= place <= l.len() && #[trigger] l.insert(place, key) == l2;
                                assert forall|i: int| 0 <= i < l2.len() implies precedes(
                                    #[trigger] l2[i],
                                    root,
                                ) by {
                                    if i < place {
                                        assert(l2[i] == l[i]);
                                    } else if i > place {
                                        assert(l2[i] == l[i - 1]);
                                    }
                                }
                                lemma_ascending_join(l2, root, r);
                                assert(before.insert(place, key) =~= l2 + seq![root] + r);
                                lemma_height_bound(node.left);
                            }
                        }
                        grown
                    },
                    Relation::Same => false,
                    Relation::After => {
                        proof {
                            assert(!l.contains(key)) by {
                                if l.contains(key) {
                                    let i = choose|i: int| 0 <= i < l.len() && l[i] == key;
                                    assert(precedes(l[i], root));
                                }
                            }
                        }
                        let grown = Self::tree_insert(&mut node.right, value);
                        proof {
                            if grown {
                                let r2 = keys_of(node.right);
                                let place = choose|place: int|
                                    0 <= place <= r.len() && #[trigger] r.insert(place, key) == r2;
                                assert forall|i: int| 0 <= i < r2.len() implies precedes(
                                    root,
                                    #[trigger] r2[i],
                                ) by {
                                    if i < place {
                                        assert(r2[i] == r[i]);
                                    } else if i > place {
                                        assert(r2[i] == r[i - 1]);
                                    }
                                }
                                lemma_ascending_join(l, root, r2);
                                assert(before.insert(l.len() as int + 1 + place, key) =~= l
                                    + seq![root] + r2);
                                lemma_height_bound(node.right);
                            }
                        }
                        grown
                    },
                };
                if inserted {
                    node.rebalance();
                }
                *tree = Some(node);
                inserted
            },
            None => {
                *tree = Some(Box::new(AVLNode { value, left: None, right: None, height: 1 }));
                proof {
                    assert(before =~= Seq::<Seq<int>>::empty());
                    assert(before.insert(0, key) =~= keys_of(*tree));
                }
                true
            },
        }
    }

    /// Whether the set holds an element with the key of `value`.
    pub fn contains(&self, value: &T) -> (found: bool)
        requires
            self.wf(),
        ensures
            found == self.elements().contains(value.key()),
    {
        let ghost key = value.key();
        let mut tree = &self.root;
        loop
            invariant
                ascending(keys_of(*tree)),
                self.elements().contains(key) == keys_of(*tree).contains(key),
                key == value.key(),
            decreases *tree,
        {
            match tree {
                Some(node) => {
                    let ghost l = keys_of(node.left);
                    let ghost r = keys_of(node.right);
                    let ghost root = node.value.key();
                    proof {
                        assert(keys_of(*tree) == l + seq![root] + r);
                        lemma_ascending_parts(l, root, r);
                        lemma_contains_parts(l, root, r, key);
                        lemma_connected(key, root);
                        lemma_irreflexive(key);
                        if r.contains(key) {
                            let i = choose|i: int| 0 <= i < r.len() && r[i] == key;
                            assert(precedes(root, r[i]));
                        }
                        if l.contains(key) {
                            let i = choose|i: int| 0 <= i < l.len() && l[i] == key;
                            assert(precedes(l[i], root));
                        }
                    }
                    match value.relate(&node.value) {
                        Relation::Before => {
                            tree = &node.left;
                        },
                        Relation::After => {
                            tree = &node.right;
                        },
                        Relation::Same => {
                            return true;
                        },
                    }
                },
                None => {
                    return false;
                },
            }
        }
    }

    /// Takes the element with the key of `value` out of the set and says
    /// whether there was one.
    pub fn remove(&mut self, value: &T) -> (removed: bool)
        requires
            old(self).wf(),
        ensures
            final(self).wf(),
            removed == old(self).elements().contains(value.key()),
            !removed ==> final(self).elements() == old(self).elements(),
            removed ==> exists|place: int|
                0 <= place < old(self).elements().len() && old(self).elements()[place]
                    == value.key() && #[trigger] old(self).elements().remove(place)
                    == final(self).elements(),
    {
        let removed = Self::tree_remove(&mut self.root, value);
        if removed {
            proof {
                let before = old(self).elements();
                let place = choose|place: int|
                    0 <= place < before.len() && before[place] == value.key()
                        && #[trigger] before.remove(place) == keys_of(self.root);
                assert(before.remove(place) == self.elements());
            }
            self.length -= 1;
        }
        removed
    }

    /// Takes the element with the key of `value` out of the subtree `tree`,
    /// restoring the balance on the way back up, and says whether there
    /// was one.
    #[verifier::rlimit(50)]
    fn tree_remove(tree: &mut Option<Box<AVLNode<T>>>, value: &T) -> (removed: bool)
        requires
            sound(*old(tree)),
        ensures
            sound(*final(tree)),
            removed == keys_of(*old(tree)).contains(value.key()),
            !removed ==> keys_of(*final(tree)) == keys_of(*old(tree)) && height_of(*final(tree))
                == height_of(*old(tree)),
            removed ==> exists|place: int|
                0 <= place < keys_of(*old(tree)).len() && keys_of(*old(tree))[place] == value.key()
                    && #[trigger] keys_of(*old(tree)).remove(place) == keys_of(*final(tree)),
            height_of(*final(tree)) == height_of(*old(tree)) || height_of(*final(tree)) + 1
                == height_of(*old(tree)),
        decreases *old(tree),
    {
        let ghost key = value.key();
        let ghost before = keys_of(*tree);
        let taken = tree.take();
        match taken {
            Some(mut node) => {
                let ghost l = keys_of(node.left);
                let ghost r = keys_of(node.right);
                let ghost root = node.value.key();
                proof {
                    assert(before == l + seq![root] + r);
                    lemma_ascending_parts(l, root, r);
                    lemma_contains_parts(l, root, r, key);
                    lemma_connected(key, root);
                    lemma_irreflexive(key);
                    lemma_height_bound(node.left);
                    lemma_height_bound(node.right);
                    lemma_height_bound(*old(tree));
                }
                match value.relate(&node.value) {
                    Relation::Before => {
                        proof {
                            if r.contains(key) {
                                let i = choose|i: int| 0 <= i < r.len() && r[i] == key;
                                assert(precedes(root, r[i]));
                            }
                        }
                        let removed = Self::tree_remove(&mut node.left, value);
                        proof {
                            if removed {
                                let l2 = keys_of(node.left);
                                let place = choose|place: int|
                                    0 <= place < l.len() && l[place] == key && #[trigger] l.remove(
                                        place,
                                    ) == l2;
                                assert forall|i: int| 0 <= i < l2.len() implies precedes(
                                    #[trigger] l2[i],
                                    root,
                                ) by {
                                    if i < place {
                                        assert(l2[i] == l[i]);
                                    } else {
                                        assert(l2[i] == l[i + 1]);
                                    }
                                }
                                lemma_ascending_join(l2, root, r);
                                assert(before.remove(place) =~= l2 + seq![root] + r);
                                assert(before[place] == key);
                            }
                        }
                        if removed {
                            node.rebalance();
                        }
                        *tree = Some(node);
                        removed
                    },
                    Relation::After => {
                        proof {
                            if l.contains(key) {
                                let i = choose|i: int| 0 <= i < l.len() && l[i] == key;
                                assert(precedes(l[i], root));
                            }
                        }
                        let removed = Self::tree_remove(&mut node.right, value);
                        proof {
                            if removed {
                                let r2 = keys_of(node.right);
                                let place = choose|place: int|
                                    0 <= place < r.len() && r[place] == key && #[trigger] r.remove(
                                        place,
                                    ) == r2;
                                assert forall|i: int| 0 <= i < r2.len() implies precedes(
                                    root,
                                    #[trigger] r2[i],
                                ) by {
                                    if i < place {
                                        assert(r2[i] == r[i]);
                                    } else {
                                        assert(r2[i] == r[i + 1]);
                                    }
                                }
                                lemma_ascending_join(l, root, r2);
                                let at = l.len() as int + 1 + place;
                                assert(before.remove(at) =~= l + seq![root] + r2);
                                assert(before[at] == key);
                            }
                        }
                        if removed {
                            node.rebalance();
                        }
                        *tree = Some(node);
                        removed
                    },
                    Relation::Same => {
                        let left = node.left.take();
                        let right = node.right.take();
                        proof {
                            let at = l.len() as int;
                            assert(before[at] == key);
                            assert(before.remove(at) =~= l + r);
                        }
                        *tree = match (left, right) {
                            (None, None) => None,
                            (None, Some(n)) => {
                                proof {
                                    assert(l + r =~= r);
                                }
                                Some(n)
                            },
                            (Some(n), None) => {
                                proof {
                                    assert(l + r =~= l);
                                }
                                Some(n)
                            },
                            (Some(l_node), Some(r_node)) => {
                                proof {
                                    assert forall|i: int, j: int|
                                        0 <= i < l.len() && 0 <= j < r.len() implies precedes(
                                        #[trigger] l[i],
                                        #[trigger] r[j],
                                    ) by {
                                        lemma_transitive(l[i], root, r[j]);
                                    }
                                }
                                Some(Self::merge(l_node, r_node))
                            },
                        };
                        true
                    },
                }
            },
            None => false,
        }
    }

    /// Joins two sound trees, of which the first holds the lesser keys and
    /// which differ in height by one at most, under the least element of
    /// the second.
    fn merge(left: Box<AVLNode<T>>, right: Box<AVLNode<T>>) -> (joined: Box<AVLNode<T>>)
        requires
            sound(Some(left)),
            sound(Some(right)),
            left.tall() <= right.tall() + 1,
            right.tall() <= left.tall() + 1,
            left.tall() < usize::MAX,
            right.tall() < usize::MAX,
            forall|i: int, j: int|
                0 <= i < left.keys().len() && 0 <= j < right.keys().len() ==> precedes(
                    #[trigger] left.keys()[i],
                    #[trigger] right.keys()[j],
                ),
        ensures
            sound(Some(joined)),
            joined.keys() == left.keys() + right.keys(),
            ({
                let tallest = if left.tall() >= right.tall() {
                    left.tall()
                } else {
                    right.tall()
                };
                joined.tall() == tallest || joined.tall() == tallest + 1
            }),
    {
        let ghost l = left.keys();
        let ghost r = right.keys();
        let mut new_right = Some(right);
        let least = Self::take_min(&mut new_right);
        let mut new_root = least.unwrap();
        let ghost r2 = keys_of(new_right);
        let ghost k = new_root.value.key();
        proof {
            assert(r =~= seq![k] + r2);
            assert(r =~= Seq::<Seq<int>>::empty() + seq![k] + r2);
            lemma_ascending_parts(Seq::<Seq<int>>::empty(), k, r2);
            assert forall|i: int| 0 <= i < l.len() implies precedes(#[trigger] l[i], k) by {
                assert(r[0] == k);
            }
            lemma_ascending_join(l, k, r2);
        }
        new_root.left = Some(left);
        new_root.right = new_right;
        proof {
            assert(new_root.keys() =~= l + seq![k] + r2);
            assert(l + r =~= l + seq![k] + r2);
        }
        new_root.rebalance();
        new_root
    }

    /// Takes the least element out of the subtree `tree`, restoring the
    /// balance on the way back up. The node handed back holds that element
    /// and has no subtrees.
    pub fn take_min(tree: &mut Option<Box<AVLNode<T>>>) -> (least: Option<Box<AVLNode<T>>>)
        requires
            sound(*old(tree)),
        ensures
            sound(*final(tree)),
            match least {
                Some(node) => {
                    &&& keys_of(*old(tree)).len() > 0
                    &&& node.key_here() == keys_of(*old(tree))[0]
                    &&& node.alone()
                    &&& keys_of(*final(tree)) == keys_of(*old(tree)).drop_first()
                },
                None => *old(tree) is None && *final(tree) is None,
            },
            height_of(*final(tree)) == height_of(*old(tree)) || height_of(*final(tree)) + 1
                == height_of(*old(tree)),
        decreases *old(tree),
    {
        let ghost before = keys_of(*tree);
        let taken = tree.take();
        match taken {
            Some(mut node) => {
                let ghost l = keys_of(node.left);
                let ghost r = keys_of(node.right);
                let ghost root = node.value.key();
                proof {
                    assert(before == l + seq![root] + r);
                    lemma_ascending_parts(l, root, r);
                    lemma_height_bound(*old(tree));
                }
                let smaller = Self::take_min(&mut node.left);
                match smaller {
                    Some(small) => {
                        proof {
                            let l2 = keys_of(node.left);
                            assert forall|i: int| 0 <= i < l2.len() implies precedes(
                                #[trigger] l2[i],
                                root,
                            ) by {
                                assert(l2[i] == l[i + 1]);
                            }
                            lemma_ascending_join(l2, root, r);
                            assert(before.drop_first() =~= l2 + seq![root] + r);
                            assert(before[0] == l[0]);
                        }
                        node.rebalance();
                        *tree = Some(node);
                        Some(small)
                    },
                    None => {
                        proof {
                            assert(l =~= Seq::<Seq<int>>::empty());
                            assert(before.drop_first() =~= r);
                            assert(before[0] == root);
                        }
                        *tree = node.right.take();
                        Some(node)
                    },
                }
            },
            None => None,
        }
    }

    /// The set of the elements of `values`, inserted one after the other.
    pub fn from_vec(values: Vec<T>) -> (tree: Self)
        requires
            values.len() < usize::MAX,
        ensures
            tree.wf(),
            forall|k: Seq<int>|
                tree.elements().contains(k) <==> exists|i: int|
                    0 <= i < values.len() && #[trigger] values[i].key() == k,
    {
        let mut tree = AVLTree::new();
        let ghost all = values@;
        for value in it: values
            invariant
                it.seq() == all,
                all.len() < usize::MAX,
                tree.wf(),
                tree.elements().len() <= it.index(),
                forall|k: Seq<int>|
                    tree.elements().contains(k) <==> exists|i: int|
                        0 <= i < it.index() && #[trigger] all[i].key() == k,
        {
            let ghost old_elements = tree.elements();
            let ghost key = value.key();
            let ghost done = it.index();
            let inserted = tree.insert(value);
            proof {
                assert forall|k: Seq<int>|
                    tree.elements().contains(k) <==> exists|i: int|
                        0 <= i < done + 1 && #[trigger] all[i].key() == k by {
                    if inserted {
                        let place = choose|place: int|
                            0 <= place <= old_elements.len() && #[trigger] old_elements.insert(
                                place,
                                key,
                            ) == tree.elements();
                        if tree.elements().contains(k) {
                            let j = choose|j: int|
                                0 <= j < tree.elements().len() && tree.elements()[j] == k;
                            if j < place {
                                assert(old_elements[j] == k);
                            } else if j > place {
                                assert(old_elements[j - 1] == k);
                            }
                        }
                        if old_elements.contains(k) {
                            let j = choose|j: int|
                                0 <= j < old_elements.len() && old_elements[j] == k;
                            if j < place {
                                assert(tree.elements()[j] == k);
                            } else {
                                assert(tree.elements()[j + 1] == k);
                            }
                        }
                        assert(tree.elements()[place] == key);
                    }
                    if old_elements.contains(k) {
                        let i = choose|i: int| 0 <= i < done && #[trigger] all[i].key() == k;
                        assert(all[i].key() == k);
                    }
                    if exists|i: int| 0 <= i < done + 1 && #[trigger] all[i].key() == k {
                        let i = choose|i: int| 0 <= i < done + 1 && #[trigger] all[i].key() == k;
                        if i < done {
                            assert(all[i].key() == k);
                        }
                    }
                    if k == key {
                        assert(all[done].key() == k);
                    }
                }
            }
        }
        tree
    }

    /// A traversal of the nodes in ascending order.
    pub fn node_iter(&self) -> (walk: NodeIter<'_, T>)
        ensures
            walk.remaining() == self.elements(),
    {
        let cap = match &self.root {
            Some(n) => n.height,
            None => 0,
        };
        let mut walk = NodeIter { stack: Vec::with_capacity(cap) };
        proof {
            assert(walk.remaining() =~= Seq::<Seq<int>>::empty());
        }
        walk.descend(&self.root);
        proof {
            assert(self.elements() + Seq::<Seq<int>>::empty() =~= self.elements());
        }
        walk
    }

    /// A traversal of the elements in ascending order.
    pub fn iter(&self) -> (walk: Iter<'_, T>)
        ensures
            walk.remaining() == self.elements(),
    {
        Iter { node_iter: self.node_iter() }
    }

    /// The number of elements.
    pub fn len(&self) -> (len: usize)
        requires
            self.wf(),
        ensures
            len == self.elements().len(),
    {
        self.length
    }

    /// Whether the set is empty.
    pub fn is_empty(&self) -> (empty: bool)
        requires
            self.wf(),
        ensures
            empty == (self.elements().len() == 0),
    {
        self.length == 0
    }
}

/// A traversal of the nodes of a tree in ascending order: a stack of the
/// nodes that are yet to be visited themselves, each with its right
/// subtree.
pub struct NodeIter<'a, T> {
    stack: Vec<&'a AVLNode<T>>,
}

/// A traversal of the elements of a tree in ascending order.
pub struct Iter<'a, T> {
    node_iter: NodeIter<'a, T>,
}

/// The keys that a stack of nodes stands for, the top of the stack first.
pub closed spec fn pending<T: Ordered>(stack: Seq<&AVLNode<T>>) -> Seq<Seq<int>>
    decreases stack.len(),
{
    if stack.len() == 0 {
        Seq::empty()
    } else {
        seq![stack.last().value.key()] + keys_of(stack.last().right) + pending(stack.drop_last())
    }
}

impl<'a, T: Ordered> NodeIter<'a, T> {
    /// The keys of the nodes yet to come, in the order in which `next`
    /// hands them out.
    pub closed spec fn remaining(&self) -> Seq<Seq<int>> {
        pending(self.stack@)
    }

    /// Stacks the left spine of `tree`, so that its nodes come next.
    fn descend(&mut self, tree: &'a Option<Box<AVLNode<T>>>)
        ensures
            final(self).remaining() == keys_of(*tree) + old(self).remaining(),
    {
        let mut child = tree;
        proof {
            assert(keys_of(*child) + self.remaining() =~= keys_of(*tree) + old(self).remaining());
        }
        loop
            invariant
                keys_of(*child) + self.remaining() == keys_of(*tree) + old(self).remaining(),
            ensures
                self.remaining() == keys_of(*tree) + old(self).remaining(),
            decreases *child,
        {
            let ghost below = self.stack@;
            match child {
                Some(node) => {
                    let next: &'a AVLNode<T> = &**node;
                    self.stack.push(next);
                    proof {
                        assert(self.stack@.drop_last() =~= below);
                        assert(keys_of(next.left) + self.remaining() =~= keys_of(*child)
                            + pending(below));
                    }
                    child = &next.left;
                },
                None => {
                    proof {
                        assert(keys_of(*child) + self.remaining() =~= self.remaining());
                    }
                    break ;
                },
            }
        }
    }

    /// The next node in ascending order, if any is left.
    pub fn next(&mut self) -> (found: Option<&'a AVLNode<T>>)
        ensures
            match found {
                Some(node) => old(self).remaining().len() > 0 && node.key_here() == old(
                    self,
                ).remaining()[0] && final(self).remaining() == old(self).remaining().drop_first(),
                None => old(self).remaining().len() == 0 && final(self).remaining() == old(
                    self,
                ).remaining(),
            },
    {
        let ghost before = self.stack@;
        match self.stack.pop() {
            Some(node) => {
                let ghost rest = self.stack@;
                proof {
                    assert(rest =~= before.drop_last());
                    assert(before.last() == node);
                }
                self.descend(&node.right);
                proof {
                    assert(self.remaining() =~= old(self).remaining().drop_first());
                }
                Some(node)
            },
            None => None,
        }
    }
}

impl<'a, T: Ordered> Iter<'a, T> {
    /// The keys of the elements yet to come, in the order in which `next`
    /// hands them out.
    pub closed spec fn remaining(&self) -> Seq<Seq<int>> {
        self.node_iter.remaining()
    }

    /// The next element in ascending order, if any is left.
    pub fn next(&mut self) -> (found: Option<&'a T>)
        ensures
            match found {
                Some(value) => old(self).remaining().len() > 0 && value.key() == old(
                    self,
                ).remaining()[0] && final(self).remaining() == old(self).remaining().drop_first(),
                None => old(self).remaining().len() == 0 && final(self).remaining() == old(
                    self,
                ).remaining(),
            },
    {
        match self.node_iter.next() {
            Some(node) => Some(&node.value),
            None => None,
        }
    }
}

impl<T: Ordered> Default for AVLTree<T> {
    fn default() -> (tree: Self)
        ensures
            tree.wf(),
            tree.elements() == Seq::<Seq<int>>::empty(),
    {
        Self::new()
    }
}

} // verus!
