//! A set of integers between one and a thousand million, changed and asked
//! about a range at a time, in a segment tree that grows where it is used.

use vstd::prelude::*;

verus! {

/// The greatest number the module knows.
pub const N: i32 = 1000000000;

/// A node of the tree, which stands for a segment of the numbers.
///
/// `value` says whether the whole segment is in the set. A node that is
/// `lazy` speaks for all its segment: what stands below it is out of date.
pub struct Node {
    lazy: bool,
    value: bool,
    left: Option<Box<Node>>,
    right: Option<Box<Node>>,
}

/// The set of numbers, tracked range by range.
pub struct RangeModule {
    root: Node,
}

/// The middle of the segment from `start` to `end`, at which it is halved.
pub open spec fn middle(start: int, end: int) -> int {
    start / 2 + end / 2
}

/// Whether an optional subtree, for the segment from `start` to `end`,
/// has `x` in the set it stands for.
pub closed spec fn below(tree: Option<Box<Node>>, start: int, end: int, x: int) -> bool
    decreases tree,
{
    match tree {
        Some(node) => node.has(start, end, x),
        None => false,
    }
}

/// Whether every node of an optional subtree is in order.
pub closed spec fn sound(tree: Option<Box<Node>>, start: int, end: int) -> bool
    decreases tree,
{
    match tree {
        Some(node) => node.wf(start, end),
        None => true,
    }
}

impl Node {
    /// Whether the node, for the segment from `start` to `end`, has `x` in
    /// the set it stands for.
    pub closed spec fn has(&self, start: int, end: int, x: int) -> bool
        decreases self,
    {
        if self.lazy || (self.left is None && self.right is None) {
            self.value
        } else if x <= middle(start, end) {
            below(self.left, start, middle(start, end), x)
        } else {
            below(self.right, middle(start, end) + 1, end, x)
        }
    }

    /// The invariant: the segment is not empty and lies between one and
    /// `N`; a node has both halves below it or neither, and one that has
    /// neither and is not lazy stands for a segment outside the set; and
    /// `value` is set exactly when the whole segment is in the set.
    pub closed spec fn wf(&self, start: int, end: int) -> bool
        decreases self,
    {
        &&& 1 <= start <= end <= N
        &&& self.left is Some <==> self.right is Some
        &&& self.left is Some ==> start < end
        &&& !self.lazy && self.left is None ==> !self.value
        &&& sound(self.left, start, middle(start, end))
        &&& sound(self.right, middle(start, end) + 1, end)
        &&& self.value <==> forall|x: int| start <= x <= end ==> self.has(start, end, x)
    }

    /// A node without anything below it, for a segment outside the set.
    fn new() -> (node: Self)
        ensures
            !node.lazy,
            !node.value,
            node.left is None,
            node.right is None,
    {
        Self { lazy: false, value: false, left: None, right: None }
    }
}

/// Halving a segment of more than one number gives two segments that are
/// not empty.
pub proof fn lemma_middle(start: int, end: int)
    requires
        1 <= start < end,
    ensures
        start <= middle(start, end) < end,
{
}

impl RangeModule {
    /// Whether `x` is in the set.
    pub closed spec fn contains(&self, x: int) -> bool {
        self.root.has(1, N as int, x)
    }

    /// The invariant of the tree.
    pub closed spec fn wf(&self) -> bool {
        self.root.wf(1, N as int)
    }

    /// The empty set.
    pub fn new() -> (module: Self)
        ensures
            module.wf(),
            forall|x: int| !module.contains(x),
    {
        let module = Self { root: Node::new() };
        proof {
            assert(!module.root.has(1, N as int, 1));
        }
        module
    }

    /// Puts the numbers from `left` up to, but not including, `right` into
    /// the set.
    pub fn add_range(&mut self, left: i32, right: i32)
        requires
            old(self).wf(),
            1 <= left < right <= N + 1,
        ensures
            final(self).wf(),
            forall|x: int|
                1 <= x <= N ==> (#[trigger] final(self).contains(x) <==> old(self).contains(x) || left
                    <= x < right),
    {
        Self::update(&mut self.root, 1, N, left, right - 1, true);
    }

    /// Whether every number from `left` up to, but not including, `right`
    /// is in the set. The set stays as it is.
    pub fn query_range(&mut self, left: i32, right: i32) -> (all: bool)
        requires
            old(self).wf(),
            1 <= left < right <= N + 1,
        ensures
            final(self).wf(),
            forall|x: int|
                1 <= x <= N ==> (#[trigger] final(self).contains(x) <==> old(self).contains(x)),
            all <==> forall|x: int| left <= x < right ==> #[trigger] old(self).contains(x),
    {
        let all = Self::query(&mut self.root, 1, N, left, right - 1);
        proof {
            let before = old(self).root;
            if all {
                assert forall|x: int| left <= x < right implies #[trigger] old(self).contains(
                    x,
                ) by {
                    assert(before.has(1, N as int, x));
                }
            } else {
                let x = choose|x: int|
                    1 <= x <= N && left <= x <= right - 1 && !#[trigger] before.has(
                        1,
                        N as int,
                        x,
                    );
                assert(left <= x < right && !old(self).contains(x));
            }
        }
        all
    }

    /// Takes the numbers from `left` up to, but not including, `right` out
    /// of the set.
    pub fn remove_range(&mut self, left: i32, right: i32)
        requires
            old(self).wf(),
            1 <= left < right <= N + 1,
        ensures
            final(self).wf(),
            forall|x: int|
                1 <= x <= N ==> (#[trigger] final(self).contains(x) <==> old(self).contains(x) && !(
                left <= x < right)),
    {
        Self::update(&mut self.root, 1, N, left, right - 1, false);
    }

    /// Sets the numbers from `l` to `r` that lie in the segment of `node`,
    /// which is the one from `start` to `end`, to be in the set or out of
    /// it, as `value` says.
    fn update(node: &mut Node, start: i32, end: i32, l: i32, r: i32, value: bool)
        requires
            old(node).wf(start as int, end as int),
            1 <= l <= r <= N,
            l <= end,
            start <= r,
        ensures
            final(node).wf(start as int, end as int),
            forall|x: int|
                start <= x <= end ==> (#[trigger] final(node).has(start as int, end as int, x) <==> (
                if l <= x <= r {
                    value
                } else {
                    old(node).has(start as int, end as int, x)
                })),
        decreases end - start,
    {
        if l <= start && end <= r {
            node.value = value;
            node.lazy = true;
            proof {
                assert(node.has(start as int, end as int, start as int) == value);
            }
            return ;
        }
        let mid = start / 2 + end / 2;
        proof {
            lemma_middle(start as int, end as int);
        }
        Self::pushDown(node, start, end);
        let ghost pushed = *node;
        let ghost pushed_left = pushed.left->0;
        let ghost pushed_right = pushed.right->0;
        if l <= mid {
            let mut left = node.left.take().unwrap();
            Self::update(&mut left, start, mid, l, r, value);
            node.left = Some(left);
        }
        if r > mid {
            let mut right = node.right.take().unwrap();
            Self::update(&mut right, mid + 1, end, l, r, value);
            node.right = Some(right);
        }
        let ghost changed = *node;
        Self::pushUp(node, start, end);
        proof {
            let next = mid + 1;
            assert forall|x: int| start <= x <= end implies (#[trigger] node.has(
                start as int,
                end as int,
                x,
            ) <==> (if l <= x <= r {
                value
            } else {
                old(node).has(start as int, end as int, x)
            })) by {
                assert(node.has(start as int, end as int, x) == changed.has(
                    start as int,
                    end as int,
                    x,
                ));
                assert(pushed.has(start as int, end as int, x) == old(node).has(
                    start as int,
                    end as int,
                    x,
                ));
                if x <= mid {
                    assert(changed.has(start as int, end as int, x) == changed.left->0.has(
                        start as int,
                        mid as int,
                        x,
                    ));
                    assert(pushed.has(start as int, end as int, x) == pushed_left.has(
                        start as int,
                        mid as int,
                        x,
                    ));
                } else {
                    assert(changed.has(start as int, end as int, x) == changed.right->0.has(
                        next as int,
                        end as int,
                        x,
                    ));
                    assert(pushed.has(start as int, end as int, x) == pushed_right.has(
                        next as int,
                        end as int,
                        x,
                    ));
                }
            }
        }
    }

    /// Whether all numbers from `l` to `r` that lie in the segment of
    /// `node`, which is the one from `start` to `end`, are in the set. The
    /// set stays as it is.
    fn query(node: &mut Node, start: i32, end: i32, l: i32, r: i32) -> (all: bool)
        requires
            old(node).wf(start as int, end as int),
            1 <= l <= r <= N,
            l <= end,
            start <= r,
        ensures
            final(node).wf(start as int, end as int),
            forall|x: int|
                start <= x <= end ==> (#[trigger] final(node).has(start as int, end as int, x)
                    <==> old(node).has(start as int, end as int, x)),
            all <==> forall|x: int|
                start <= x <= end && l <= x <= r ==> #[trigger] old(node).has(
                    start as int,
                    end as int,
                    x,
                ),
        decreases end - start,
    {
        if l <= start && end <= r {
            return node.value;
        }
        let mid = start / 2 + end / 2;
        proof {
            lemma_middle(start as int, end as int);
        }
        Self::pushDown(node, start, end);
        let ghost pushed = *node;
        let ghost pushed_left = pushed.left->0;
        let ghost pushed_right = pushed.right->0;
        let ghost next = mid + 1;
        proof {
            assert forall|x: int| start <= x <= end implies old(node).has(
                start as int,
                end as int,
                x,
            ) == (if x <= mid {
                pushed_left.has(start as int, mid as int, x)
            } else {
                pushed_right.has(next as int, end as int, x)
            }) by {
                assert(pushed.has(start as int, end as int, x) == old(node).has(
                    start as int,
                    end as int,
                    x,
                ));
            }
        }
        let mut ans = true;
        if l <= mid {
            let mut left = node.left.take().unwrap();
            let part = Self::query(&mut left, start, mid, l, r);
            ans = ans && part;
            node.left = Some(left);
        }
        let ghost asked = *node;
        proof {
            assert forall|x: int| start <= x <= end implies (#[trigger] asked.has(
                start as int,
                end as int,
                x,
            ) <==> old(node).has(start as int, end as int, x)) by {
                if x <= mid {
                    assert(asked.has(start as int, end as int, x) == asked.left->0.has(
                        start as int,
                        mid as int,
                        x,
                    ));
                } else {
                    assert(asked.has(start as int, end as int, x) == pushed_right.has(
                        next as int,
                        end as int,
                        x,
                    ));
                }
            }
            assert(asked.has(start as int, end as int, start as int) == old(node).has(
                start as int,
                end as int,
                start as int,
            ));
            Self::lemma_same_set(&pushed, &asked, start as int, end as int);
        }
        if ans == false {
            proof {
                let x = choose|x: int|
                    start <= x <= mid && l <= x <= r && !#[trigger] pushed_left.has(
                        start as int,
                        mid as int,
                        x,
                    );
                assert(!old(node).has(start as int, end as int, x));
            }
            return ans;
        }
        if r > mid {
            let mut right = node.right.take().unwrap();
            let part = Self::query(&mut right, mid + 1, end, l, r);
            ans = ans && part;
            node.right = Some(right);
        }
        proof {
            assert forall|x: int| start <= x <= end implies (#[trigger] node.has(
                start as int,
                end as int,
                x,
            ) <==> old(node).has(start as int, end as int, x)) by {
                if x <= mid {
                    assert(node.has(start as int, end as int, x) == asked.left->0.has(
                        start as int,
                        mid as int,
                        x,
                    ));
                    assert(asked.has(start as int, end as int, x) == asked.left->0.has(
                        start as int,
                        mid as int,
                        x,
                    ));
                } else {
                    assert(node.has(start as int, end as int, x) == node.right->0.has(
                        next as int,
                        end as int,
                        x,
                    ));
                }
            }
            Self::lemma_same_set(&pushed, node, start as int, end as int);
            if !ans {
                let x = choose|x: int|
                    next <= x <= end && l <= x <= r && !#[trigger] pushed_right.has(
                        next as int,
                        end as int,
                        x,
                    );
                assert(!old(node).has(start as int, end as int, x));
            } else {
                assert forall|x: int| start <= x <= end && l <= x <= r implies #[trigger] old(
                    node,
                ).has(start as int, end as int, x) by {
                    if x <= mid {
                        assert(pushed_left.has(start as int, mid as int, x));
                    } else {
                        assert(pushed_right.has(next as int, end as int, x));
                    }
                }
            }
        }
        ans
    }

    /// A node that is in order stays so when the halves below it are
    /// replaced by halves that are in order and stand for the same sets.
    proof fn lemma_same_set(before: &Node, after: &Node, start: int, end: int)
        requires
            before.wf(start, end),
            start < end,
            before.left is Some,
            !before.lazy,
            after.lazy == before.lazy,
            after.value == before.value,
            after.left is Some,
            after.right is Some,
            sound(after.left, start, middle(start, end)),
            sound(after.right, middle(start, end) + 1, end),
            forall|x: int|
                start <= x <= end ==> (#[trigger] after.has(start, end, x) <==> before.has(
                    start,
                    end,
                    x,
                )),
        ensures
            after.wf(start, end),
    {
        if after.value {
            assert forall|x: int| start <= x <= end implies after.has(start, end, x) by {
                assert(before.has(start, end, x));
            }
        } else {
            let x = choose|x: int| start <= x <= end && !before.has(start, end, x);
            assert(!after.has(start, end, x));
        }
    }

    /// Sets the value of a node from those of the two halves below it.
    #[allow(non_snake_case)]
    fn pushUp(node: &mut Node, start: i32, end: i32)
        requires
            old(node).left is Some,
            old(node).right is Some,
            !old(node).lazy,
            1 <= start < end <= N,
            sound(old(node).left, start as int, middle(start as int, end as int)),
            sound(old(node).right, middle(start as int, end as int) + 1, end as int),
        ensures
            final(node).wf(start as int, end as int),
            forall|x: int|
                start <= x <= end ==> (#[trigger] final(node).has(start as int, end as int, x)
                    <==> old(node).has(start as int, end as int, x)),
    {
        let ghost mid = middle(start as int, end as int);
        let ghost next = mid + 1;
        proof {
            lemma_middle(start as int, end as int);
        }
        let l = match &node.left {
            Some(child) => child.value,
            None => false,
        };
        let r = match &node.right {
            Some(child) => child.value,
            None => false,
        };
        node.value = l && r;
        proof {
            let left = node.left->0;
            let right = node.right->0;
            assert(left.wf(start as int, mid));
            assert(right.wf(next, end as int));
            if l && r {
                assert forall|x: int| start <= x <= end implies node.has(
                    start as int,
                    end as int,
                    x,
                ) by {
                    if x <= mid {
                        assert(left.has(start as int, mid, x));
                    } else {
                        assert(right.has(next, end as int, x));
                    }
                }
            } else if !l {
                let x = choose|x: int|
                    start <= x <= mid && !#[trigger] left.has(start as int, mid, x);
                assert(!node.has(start as int, end as int, x));
            } else {
                let x = choose|x: int|
                    next <= x <= end && !#[trigger] right.has(next, end as int, x);
                assert(!node.has(start as int, end as int, x));
            }
        }
    }

    /// Gives a node the two halves below it, if it has none, and hands
    /// down to them what the node says if it is lazy.
    #[allow(non_snake_case)]
    fn pushDown(node: &mut Node, start: i32, end: i32)
        requires
            old(node).wf(start as int, end as int),
            start < end,
        ensures
            final(node).wf(start as int, end as int),
            final(node).left is Some,
            final(node).right is Some,
            !final(node).lazy,
            final(node).value == old(node).value,
            forall|x: int|
                start <= x <= end ==> (#[trigger] final(node).has(start as int, end as int, x)
                    <==> old(node).has(start as int, end as int, x)),
    {
        let ghost mid = middle(start as int, end as int);
        let ghost next = mid + 1;
        proof {
            lemma_middle(start as int, end as int);
        }
        if node.left.is_none() {
            let fresh = Node::new();
            proof {
                assert(!fresh.has(start as int, mid, start as int));
                assert(fresh.wf(start as int, mid));
            }
            node.left = Some(Box::new(fresh));
        }
        if node.right.is_none() {
            let fresh = Node::new();
            proof {
                assert(!fresh.has(next, end as int, next));
                assert(fresh.wf(next, end as int));
            }
            node.right = Some(Box::new(fresh));
        }
        if node.lazy == true {
            let value = node.value;
            let mut left = node.left.take().unwrap();
            let mut right = node.right.take().unwrap();
            proof {
                assert(left.wf(start as int, mid));
                assert(right.wf(next, end as int));
            }
            left.value = value;
            right.value = value;
            left.lazy = true;
            right.lazy = true;
            proof {
                assert(left.has(start as int, mid, start as int) == value);
                assert(right.has(next, end as int, next) == value);
                assert(left.wf(start as int, mid));
                assert(right.wf(next, end as int));
            }
            node.left = Some(left);
            node.right = Some(right);
            node.lazy = false;
        }
        proof {
            let left = node.left->0;
            let right = node.right->0;
            assert(left.wf(start as int, mid));
            assert(right.wf(next, end as int));
            assert forall|x: int| start <= x <= end implies (#[trigger] node.has(
                start as int,
                end as int,
                x,
            ) <==> old(node).has(start as int, end as int, x)) by {
                if x <= mid {
                    assert(node.has(start as int, end as int, x) == left.has(
                        start as int,
                        mid,
                        x,
                    ));
                } else {
                    assert(node.has(start as int, end as int, x) == right.has(
                        next,
                        end as int,
                        x,
                    ));
                }
            }
            if node.value {
                assert forall|x: int| start <= x <= end implies node.has(
                    start as int,
                    end as int,
                    x,
                ) by {
                    assert(old(node).has(start as int, end as int, x));
                }
            } else {
                let x = choose|x: int|
                    start <= x <= end && !old(node).has(start as int, end as int, x);
                assert(!node.has(start as int, end as int, x));
            }
        }
    }
}

} // verus!
