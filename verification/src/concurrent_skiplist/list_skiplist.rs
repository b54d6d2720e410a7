//! A skip list that grows a level at a time: each element climbs from the
//! lowest level for as long as a coin falls heads, and one that climbs
//! through all levels adds an empty one on top.

use vstd::multiset::Multiset;
use vstd::prelude::*;

use crate::concurrent_skiplist::chance::coin;
use crate::concurrent_skiplist::levels::{
    count, holds, insert_sorted, lemma_count_positive, lower_bound, ordered, remove_one,
};

verus! {

/// The key of the head of every level, which stands before its elements.
pub const HEAD_KEY: i32 = -1;

/// A bag of integers in sorted levels, the lowest first.
pub struct Skiplist {
    levels: Vec<Vec<i32>>,
}

impl View for Skiplist {
    type V = Multiset<i32>;

    /// The bag: what the lowest level holds.
    closed spec fn view(&self) -> Multiset<i32> {
        self.levels@[0]@.to_multiset()
    }
}

impl Skiplist {
    /// The number of levels.
    pub closed spec fn height(&self) -> nat {
        self.levels@.len()
    }

    /// What level `k` holds, in order; level 0 is the lowest.
    pub closed spec fn level(&self, k: int) -> Seq<i32> {
        self.levels@[k]@
    }

    /// How often `x` occurs in level `k`.
    pub open spec fn held(&self, k: int, x: i32) -> nat {
        count(self.level(k), x)
    }

    /// The levels of a well formed skip list are sorted, each holds no
    /// more of anything than the one below it, and the lowest holds the
    /// bag.
    pub proof fn lemma_levels(&self)
        requires
            self.wf(),
        ensures
            self.height() >= 1,
            self.level(0).to_multiset() == self@,
            forall|k: int| 0 <= k < self.height() ==> ordered(#[trigger] self.level(k)),
            forall|k: int, x: i32|
                0 <= k < self.height() - 1 ==> #[trigger] self.held(k + 1, x) <= self.held(k, x),
    {
        assert forall|k: int, x: i32| 0 <= k < self.height() - 1 implies #[trigger] self.held(
            k + 1,
            x,
        ) <= self.held(k, x) by {
            assert(count(self.levels@[k + 1]@, x) <= count(self.levels@[k]@, x));
        }
    }

    /// The least element of the bag, if it has one.
    pub closed spec fn least(&self) -> Option<i32> {
        if self.levels@[0]@.len() > 0 {
            Some(self.levels@[0]@[0])
        } else {
            None
        }
    }

    /// The invariant: there is a lowest level; every level is sorted and
    /// holds no more of anything than the level below it.
    pub closed spec fn wf(&self) -> bool {
        &&& self.levels@.len() >= 1
        &&& forall|k: int| 0 <= k < self.levels@.len() ==> ordered((#[trigger] self.levels@[k])@)
        &&& forall|k: int, x: i32|
            0 <= k < self.levels@.len() - 1 ==> #[trigger] count(self.levels@[k + 1]@, x) <= count(
                self.levels@[k]@,
                x,
            )
    }

    /// The least element of the bag is in the bag, and nothing in the bag
    /// is less.
    pub proof fn lemma_least(&self)
        requires
            self.wf(),
        ensures
            match self.least() {
                Some(least) => self@.count(least) > 0 && forall|x: i32|
                    self@.count(x) > 0 ==> least <= x,
                None => self@ == Multiset::<i32>::empty(),
            },
    {
        let lowest = self.levels@[0]@;
        if lowest.len() > 0 {
            lemma_count_positive(lowest, lowest[0]);
            assert forall|x: i32| self@.count(x) > 0 implies lowest[0] <= x by {
                lemma_count_positive(lowest, x);
                let i = choose|i: int| 0 <= i < lowest.len() && lowest[i] == x;
                assert(lowest[0] <= lowest[i]);
            }
        } else {
            crate::concurrent_skiplist::levels::lemma_count_empty(lowest);
        }
    }

    /// An empty skip list of one level.
    pub fn new() -> (list: Self)
        ensures
            list.wf(),
            list@ == Multiset::<i32>::empty(),
            list.height() == 1,
    {
        let mut levels: Vec<Vec<i32>> = Vec::new();
        levels.push(Vec::new());
        let list = Self { levels };
        proof {
            crate::concurrent_skiplist::levels::lemma_count_empty(list.levels@[0]@);
        }
        list
    }

    /// Whether the search for `target` ends at a key equal to it: at an
    /// element of the bag, or, for the head's own key, at the head, which
    /// is where the search ends if nothing in the bag is as small.
    pub fn search(&self, target: i32) -> (found: bool)
        requires
            self.wf(),
        ensures
            found == (self@.count(target) > 0 || (target == HEAD_KEY && match self.least() {
                Some(least) => least > HEAD_KEY,
                None => true,
            })),
    {
        if holds(&self.levels[0], target) {
            return true;
        }
        if target != HEAD_KEY {
            return false;
        }
        let at = lower_bound(&self.levels[0], HEAD_KEY);
        proof {
            let lowest = self.levels@[0]@;
            lemma_count_positive(lowest, HEAD_KEY);
            if lowest.len() > 0 {
                if at == 0 {
                    assert(lowest[0] >= HEAD_KEY);
                    if lowest[0] == HEAD_KEY {
                        assert(lowest.contains(HEAD_KEY));
                    }
                } else {
                    assert(lowest[0] < HEAD_KEY);
                }
            }
        }
        at == 0
    }

    /// Puts `target` into the bag, as high as the coin says.
    pub fn add(&mut self, target: i32)
        requires
            old(self).wf(),
        ensures
            final(self).wf(),
            final(self)@ == old(self)@.insert(target),
            old(self).height() <= final(self).height() <= old(self).height() + 1,
    {
        let mut height: usize = 1;
        let mut is_insert = coin();
        while is_insert && height < self.levels.len()
            invariant
                1 <= height <= self.levels@.len(),
                self.levels@.len() >= 1,
            decreases self.levels.len() - height,
        {
            height += 1;
            is_insert = coin();
        }
        self.add_reaching(target, height, is_insert);
    }

    /// Puts `target` into the lowest `height` levels, and a new level,
    /// which is empty, on top if `grow` says so.
    pub fn add_reaching(&mut self, target: i32, height: usize, grow: bool)
        requires
            old(self).wf(),
            1 <= height <= old(self).height(),
        ensures
            final(self).wf(),
            final(self)@ == old(self)@.insert(target),
            final(self).height() == old(self).height() + if grow {
                1nat
            } else {
                0nat
            },
            forall|k: int|
                0 <= k < height ==> (#[trigger] final(self).level(k)).to_multiset() == old(
                    self,
                ).level(k).to_multiset().insert(target),
            forall|k: int|
                height <= k < old(self).height() ==> #[trigger] final(self).level(k) == old(
                    self,
                ).level(k),
            grow ==> final(self).level(old(self).height() as int).len() == 0,
    {
        let ghost before = self.levels@;
        let mut i: usize = 0;
        while i < height
            invariant
                i <= height <= before.len(),
                self.levels@.len() == before.len(),
                forall|k: int| 0 <= k < before.len() ==> ordered((#[trigger] before[k])@),
                forall|k: int| 0 <= k < before.len() ==> ordered((#[trigger] self.levels@[k])@),
                forall|k: int|
                    0 <= k < i ==> (#[trigger] self.levels@[k])@.to_multiset()
                        == before[k]@.to_multiset().insert(target),
                forall|k: int| i <= k < before.len() ==> #[trigger] self.levels@[k] == before[k],
            decreases height - i,
        {
            insert_sorted(&mut self.levels[i], target);
            i += 1;
        }
        proof {
            assert forall|k: int, x: i32| 0 <= k < self.levels@.len() - 1 implies #[trigger] count(
                self.levels@[k + 1]@,
                x,
            ) <= count(self.levels@[k]@, x) by {
                assert(count(before[k + 1]@, x) <= count(before[k]@, x));
            }
        }
        if grow {
            let ghost filled = self.levels@;
            self.levels.push(Vec::new());
            proof {
                let top = self.levels@.len() - 1;
                crate::concurrent_skiplist::levels::lemma_count_empty(self.levels@[top]@);
                assert forall|k: int, x: i32|
                    0 <= k < self.levels@.len() - 1 implies #[trigger] count(
                    self.levels@[k + 1]@,
                    x,
                ) <= count(self.levels@[k]@, x) by {
                    if k + 1 < top {
                        assert(self.levels@[k + 1] == filled[k + 1]);
                        assert(self.levels@[k] == filled[k]);
                        assert(count(filled[k + 1]@, x) <= count(filled[k]@, x));
                    }
                }
                assert forall|k: int| 0 <= k < self.levels@.len() implies ordered(
                    (#[trigger] self.levels@[k])@,
                ) by {
                    if k < top {
                        assert(self.levels@[k] == filled[k]);
                    }
                }
            }
        }
    }

    /// Takes one `target` out of the bag, and says whether there was one.
    pub fn erase(&mut self, target: i32) -> (found: bool)
        requires
            old(self).wf(),
        ensures
            final(self).wf(),
            found == (old(self)@.count(target) > 0),
            final(self)@ == if found {
                old(self)@.remove(target)
            } else {
                old(self)@
            },
            final(self).height() == old(self).height(),
            forall|k: int|
                0 <= k < old(self).height() ==> (#[trigger] final(self).level(k)).to_multiset() == (
                if old(self).held(k, target) > 0 {
                    old(self).level(k).to_multiset().remove(target)
                } else {
                    old(self).level(k).to_multiset()
                }),
    {
        let ghost before = self.levels@;
        let mut is_found = false;
        let mut i = self.levels.len();
        while i > 0
            invariant
                i <= before.len(),
                self.levels@.len() == before.len(),
                before.len() >= 1,
                forall|k: int| 0 <= k < before.len() ==> ordered((#[trigger] before[k])@),
                forall|k: int| 0 <= k < before.len() ==> ordered((#[trigger] self.levels@[k])@),
                forall|k: int|
                    i <= k < before.len() ==> (#[trigger] self.levels@[k])@.to_multiset() == (
                    if count(before[k]@, target) > 0 {
                        before[k]@.to_multiset().remove(target)
                    } else {
                        before[k]@.to_multiset()
                    }),
                forall|k: int| 0 <= k < i ==> #[trigger] self.levels@[k] == before[k],
                is_found == exists|k: int|
                    i <= k < before.len() && count((#[trigger] before[k])@, target) > 0,
            decreases i,
        {
            i -= 1;
            let here = remove_one(&mut self.levels[i], target);
            is_found = is_found || here;
        }
        proof {
            assert forall|k: int, x: i32| 0 <= k < self.levels@.len() - 1 implies #[trigger] count(
                self.levels@[k + 1]@,
                x,
            ) <= count(self.levels@[k]@, x) by {
                assert(count(before[k + 1]@, x) <= count(before[k]@, x));
                assert(self.levels@[k + 1]@.to_multiset() == (if count(before[k + 1]@, target) > 0 {
                    before[k + 1]@.to_multiset().remove(target)
                } else {
                    before[k + 1]@.to_multiset()
                }));
                assert(self.levels@[k]@.to_multiset() == (if count(before[k]@, target) > 0 {
                    before[k]@.to_multiset().remove(target)
                } else {
                    before[k]@.to_multiset()
                }));
            }
            assert(self.levels@[0]@.to_multiset() == (if count(before[0]@, target) > 0 {
                before[0]@.to_multiset().remove(target)
            } else {
                before[0]@.to_multiset()
            }));
            if is_found {
                let k = choose|k: int|
                    0 <= k < before.len() && count((#[trigger] before[k])@, target) > 0;
                old(self).lemma_lowest(k, target);
            }
        }
        is_found
    }

    /// Whatever a level holds, the lowest level holds.
    proof fn lemma_lowest(&self, level: int, x: i32)
        requires
            self.wf(),
            0 <= level < self.levels@.len(),
        ensures
            count(self.levels@[level]@, x) <= self@.count(x),
        decreases level,
    {
        if level > 0 {
            self.lemma_lowest(level - 1, x);
            assert(count(self.levels@[level - 1 + 1]@, x) <= count(self.levels@[level - 1]@, x));
        }
    }

    /// The levels, each as a list, the highest first.
    pub fn rows(&self) -> (rows: Vec<Vec<i32>>)
        requires
            self.wf(),
        ensures
            rows@.len() == self.height(),
            forall|k: int|
                0 <= k < self.height() ==> (#[trigger] rows@[k])@ == self.level(
                    self.height() - 1 - k,
                ),
    {
        let mut rows: Vec<Vec<i32>> = Vec::new();
        let mut i = self.levels.len();
        while i > 0
            invariant
                i <= self.levels@.len(),
                rows@.len() == self.levels@.len() - i,
                forall|k: int|
                    0 <= k < rows@.len() ==> (#[trigger] rows@[k])@ == self.levels@[
                        self.levels@.len() - 1 - k
                    ]@,
            decreases i,
        {
            i -= 1;
            rows.push(self.levels[i].clone());
        }
        rows
    }
}

} // verus!
