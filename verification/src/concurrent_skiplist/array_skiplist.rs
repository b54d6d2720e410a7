//! A skip list with a fixed number of levels, each element reaching as high
//! as one random draw says.

use vstd::multiset::Multiset;
use vstd::prelude::*;

use crate::concurrent_skiplist::chance::{height_from, random_bits, MAX_HEIGHT};
use crate::concurrent_skiplist::levels::{
    count, holds, insert_sorted, lemma_count_empty, ordered, remove_one,
};

verus! {

/// A bag of integers in `MAX_HEIGHT` sorted levels, of which those from
/// `current_height` on are empty.
pub struct Skiplist {
    levels: Vec<Vec<i32>>,
    current_height: usize,
}

impl View for Skiplist {
    type V = Multiset<i32>;

    /// The bag: what the lowest level holds.
    closed spec fn view(&self) -> Multiset<i32> {
        self.levels@[0]@.to_multiset()
    }
}

impl Skiplist {
    /// The number of levels in use.
    pub closed spec fn height(&self) -> nat {
        self.current_height as nat
    }

    /// What level `k` holds, in order; level 0 is the lowest.
    pub closed spec fn level(&self, k: int) -> Seq<i32> {
        self.levels@[k]@
    }

    /// How often `x` occurs in level `k`.
    pub open spec fn held(&self, k: int, x: i32) -> nat {
        count(self.level(k), x)
    }

    /// The levels of a well formed skip list are sorted, each holds no
    /// more of anything than the one below it, the lowest holds the bag,
    /// and those not in use are empty.
    pub proof fn lemma_levels(&self)
        requires
            self.wf(),
        ensures
            self.height() <= MAX_HEIGHT,
            self.level(0).to_multiset() == self@,
            forall|k: int| 0 <= k < MAX_HEIGHT ==> ordered(#[trigger] self.level(k)),
            forall|k: int, x: i32|
                0 <= k < MAX_HEIGHT - 1 ==> #[trigger] self.held(k + 1, x) <= self.held(k, x),
            forall|k: int| self.height() <= k < MAX_HEIGHT ==> (#[trigger] self.level(k)).len() == 0,
    {
        assert forall|k: int, x: i32| 0 <= k < MAX_HEIGHT - 1 implies #[trigger] self.held(
            k + 1,
            x,
        ) <= self.held(k, x) by {
            assert(count(self.levels@[k + 1]@, x) <= count(self.levels@[k]@, x));
        }
    }

    /// The invariant: every level is sorted and holds no more of anything
    /// than the level below it; the levels that are not in use are empty,
    /// and the highest in use is not.
    pub closed spec fn wf(&self) -> bool {
        &&& self.sorted_levels()
        &&& self.current_height > 0 ==> self.levels@[self.current_height - 1]@.len() > 0
    }

    /// The invariant but for its last clause.
    spec fn sorted_levels(&self) -> bool {
        &&& self.levels@.len() == MAX_HEIGHT
        &&& self.current_height <= MAX_HEIGHT
        &&& forall|k: int| 0 <= k < MAX_HEIGHT ==> ordered((#[trigger] self.levels@[k])@)
        &&& forall|k: int, x: i32|
            0 <= k < MAX_HEIGHT - 1 ==> #[trigger] count(self.levels@[k + 1]@, x) <= count(
                self.levels@[k]@,
                x,
            )
        &&& forall|k: int|
            self.current_height <= k < MAX_HEIGHT ==> (#[trigger] self.levels@[k])@.len() == 0
    }

    /// Whatever a level holds, the lowest level holds.
    proof fn lemma_lowest(&self, level: int, x: i32)
        requires
            self.wf(),
            0 <= level < MAX_HEIGHT,
        ensures
            count(self.levels@[level]@, x) <= self@.count(x),
        decreases level,
    {
        if level > 0 {
            self.lemma_lowest(level - 1, x);
            assert(count(self.levels@[level - 1 + 1]@, x) <= count(self.levels@[level - 1]@, x));
        }
    }

    /// An empty skip list.
    pub fn new() -> (list: Self)
        ensures
            list.wf(),
            list@ == Multiset::<i32>::empty(),
            list.height() == 0,
    {
        let mut levels: Vec<Vec<i32>> = Vec::new();
        while levels.len() < MAX_HEIGHT
            invariant
                levels@.len() <= MAX_HEIGHT,
                forall|k: int| 0 <= k < levels@.len() ==> (#[trigger] levels@[k])@.len() == 0,
            decreases MAX_HEIGHT - levels.len(),
        {
            levels.push(Vec::new());
        }
        let list = Self { levels, current_height: 0 };
        proof {
            assert forall|k: int, x: i32| 0 <= k < MAX_HEIGHT - 1 implies #[trigger] count(
                list.levels@[k + 1]@,
                x,
            ) <= count(list.levels@[k]@, x) by {
                lemma_count_empty(list.levels@[k + 1]@);
            }
            lemma_count_empty(list.levels@[0]@);
        }
        list
    }

    /// Whether the bag holds `target`.
    pub fn search(&mut self, target: i32) -> (found: bool)
        requires
            old(self).wf(),
        ensures
            *final(self) == *old(self),
            found == (old(self)@.count(target) > 0),
    {
        let mut height = self.current_height;
        while height > 0
            invariant
                self.wf(),
                *self == *old(self),
                height <= self.current_height,
                forall|k: int|
                    height <= k < self.current_height ==> count(
                        (#[trigger] self.levels@[k])@,
                        target,
                    ) == 0,
            decreases height,
        {
            height -= 1;
            if holds(&self.levels[height], target) {
                proof {
                    self.lemma_lowest(height as int, target);
                }
                return true;
            }
        }
        proof {
            if self.current_height == 0 {
                assert(self.levels@[0]@.len() == 0);
                lemma_count_empty(self.levels@[0]@);
            } else {
                assert(count(self.levels@[0]@, target) == 0);
            }
        }
        false
    }

    /// Puts `target` into the bag, at a height drawn at random.
    pub fn add(&mut self, target: i32)
        requires
            old(self).wf(),
        ensures
            final(self).wf(),
            final(self)@ == old(self)@.insert(target),
            old(self).height() <= final(self).height(),
    {
        let rand_height = Self::rand_height();
        self.add_at_height(target, rand_height);
    }

    /// Puts `target` into the lowest `height` levels.
    pub fn add_at_height(&mut self, target: i32, height: usize)
        requires
            old(self).wf(),
            1 <= height <= MAX_HEIGHT,
        ensures
            final(self).wf(),
            final(self)@ == old(self)@.insert(target),
            final(self).height() == if old(self).height() >= height {
                old(self).height()
            } else {
                height as nat
            },
            forall|k: int|
                0 <= k < height ==> (#[trigger] final(self).level(k)).to_multiset() == old(
                    self,
                ).level(k).to_multiset().insert(target),
            forall|k: int|
                height <= k < MAX_HEIGHT ==> #[trigger] final(self).level(k) == old(self).level(k),
    {
        if self.current_height < height {
            self.current_height = height;
        }
        let ghost before = self.levels@;
        let mut i: usize = 0;
        while i < height
            invariant
                i <= height <= MAX_HEIGHT,
                self.levels@.len() == MAX_HEIGHT,
                before.len() == MAX_HEIGHT,
                self.current_height == if old(self).current_height >= height {
                    old(self).current_height
                } else {
                    height
                },
                forall|k: int| 0 <= k < MAX_HEIGHT ==> ordered((#[trigger] before[k])@),
                forall|k: int| 0 <= k < MAX_HEIGHT ==> ordered((#[trigger] self.levels@[k])@),
                forall|k: int|
                    0 <= k < i ==> (#[trigger] self.levels@[k])@.to_multiset()
                        == before[k]@.to_multiset().insert(target),
                forall|k: int| i <= k < MAX_HEIGHT ==> #[trigger] self.levels@[k] == before[k],
            decreases height - i,
        {
            insert_sorted(&mut self.levels[i], target);
            i += 1;
        }
        proof {
            assert(before == old(self).levels@);
            assert forall|k: int, x: i32| 0 <= k < MAX_HEIGHT - 1 implies #[trigger] count(
                self.levels@[k + 1]@,
                x,
            ) <= count(self.levels@[k]@, x) by {
                assert(count(before[k + 1]@, x) <= count(before[k]@, x));
            }
            assert forall|k: int| self.current_height <= k < MAX_HEIGHT implies (
            #[trigger] self.levels@[k])@.len() == 0 by {
                assert(before[k]@.len() == 0);
            }
            let top = self.current_height - 1;
            if top < height {
                assert(self.levels@[top]@.to_multiset() == before[top]@.to_multiset().insert(
                    target,
                ));
                crate::concurrent_skiplist::levels::lemma_count_positive(
                    self.levels@[top]@,
                    target,
                );
            } else {
                assert(self.levels@[top] == before[top]);
            }
        }
    }

    /// Takes one `target` out of the bag, and says whether there was one.
    pub fn erase(&mut self, target: i32) -> (found: bool)
        requires
            old(self).wf(),
        ensures
            final(self).wf(),
            found == (old(self)@.count(target) > 0),
            final(self)@ == if found {
                old(self)@.remove(target)
            } else {
                old(self)@
            },
            final(self).height() <= old(self).height(),
            forall|k: int|
                0 <= k < MAX_HEIGHT ==> (#[trigger] final(self).level(k)).to_multiset() == (
                if old(self).held(k, target) > 0 {
                    old(self).level(k).to_multiset().remove(target)
                } else {
                    old(self).level(k).to_multiset()
                }),
            forall|k: int|
                final(self).height() <= k < old(self).height() ==> (#[trigger] final(self).level(
                    k,
                )).len() == 0,
            final(self).height() > 0 ==> final(self).level(final(self).height() - 1).len() > 0,
    {
        if !holds(&self.levels[0], target) {
            proof {
                assert forall|k: int| 0 <= k < MAX_HEIGHT implies old(self).held(k, target)
                    == 0 by {
                    old(self).lemma_lowest(k, target);
                }
            }
            return false;
        }
        let ghost before = self.levels@;
        proof {
            if self.current_height == 0 {
                assert(before[0]@.len() == 0);
                lemma_count_empty(before[0]@);
            }
        }
        let mut i = self.current_height;
        while i > 0
            invariant
                i <= self.current_height <= MAX_HEIGHT,
                self.current_height == old(self).current_height,
                self.levels@.len() == MAX_HEIGHT,
                before.len() == MAX_HEIGHT,
                forall|k: int| 0 <= k < MAX_HEIGHT ==> ordered((#[trigger] before[k])@),
                forall|k: int| 0 <= k < MAX_HEIGHT ==> ordered((#[trigger] self.levels@[k])@),
                forall|k: int|
                    i <= k < self.current_height ==> (#[trigger] self.levels@[k])@.to_multiset()
                        == (if count(before[k]@, target) > 0 {
                        before[k]@.to_multiset().remove(target)
                    } else {
                        before[k]@.to_multiset()
                    }),
                forall|k: int|
                    0 <= k < i || self.current_height <= k < MAX_HEIGHT
                        ==> #[trigger] self.levels@[k] == before[k],
            decreases i,
        {
            i -= 1;
            remove_one(&mut self.levels[i], target);
        }
        proof {
            assert(before == old(self).levels@);
            assert forall|k: int, x: i32| 0 <= k < MAX_HEIGHT - 1 implies #[trigger] count(
                self.levels@[k + 1]@,
                x,
            ) <= count(self.levels@[k]@, x) by {
                assert(count(before[k + 1]@, x) <= count(before[k]@, x));
                if k + 1 >= self.current_height {
                    assert(before[k + 1]@.len() == 0);
                    lemma_count_empty(before[k + 1]@);
                    assert(self.levels@[k + 1] == before[k + 1]);
                } else {
                    assert(self.levels@[k + 1]@.to_multiset() == (if count(before[k + 1]@, target)
                        > 0 {
                        before[k + 1]@.to_multiset().remove(target)
                    } else {
                        before[k + 1]@.to_multiset()
                    }));
                    assert(self.levels@[k]@.to_multiset() == (if count(before[k]@, target) > 0 {
                        before[k]@.to_multiset().remove(target)
                    } else {
                        before[k]@.to_multiset()
                    }));
                }
            }
            assert forall|k: int| self.current_height <= k < MAX_HEIGHT implies (
            #[trigger] self.levels@[k])@.len() == 0 by {
                assert(before[k]@.len() == 0);
            }
        }
        let ghost erased = self.levels@;
        proof {
            assert(erased[0]@.to_multiset() == before[0]@.to_multiset().remove(target));
            assert forall|k: int| 0 <= k < MAX_HEIGHT implies (#[trigger] erased[k])@.to_multiset()
                == (if count(before[k]@, target) > 0 {
                before[k]@.to_multiset().remove(target)
            } else {
                before[k]@.to_multiset()
            }) by {
                if k >= self.current_height {
                    assert(before[k]@.len() == 0);
                    lemma_count_empty(before[k]@);
                }
            }
        }
        while self.current_height > 0 && self.levels[self.current_height - 1].is_empty()
            invariant
                self.sorted_levels(),
                self.levels@ == erased,
                self.current_height <= old(self).current_height,
            decreases self.current_height,
        {
            self.current_height -= 1;
        }
        true
    }

    /// Draws the height of a new element.
    fn rand_height() -> (height: usize)
        ensures
            1 <= height <= MAX_HEIGHT,
    {
        height_from(random_bits())
    }

    /// The levels in use, each as a list, the highest first.
    pub fn rows(&self) -> (rows: Vec<Vec<i32>>)
        requires
            self.wf(),
        ensures
            rows@.len() == self.height(),
            forall|k: int|
                0 <= k < self.height() ==> (#[trigger] rows@[k])@ == self.level(
                    self.height() - 1 - k,
                ),
    {
        let mut rows: Vec<Vec<i32>> = Vec::new();
        let mut i = self.current_height;
        while i > 0
            invariant
                self.wf(),
                i <= self.current_height,
                rows@.len() == self.current_height - i,
                forall|k: int|
                    0 <= k < rows@.len() ==> (#[trigger] rows@[k])@ == self.levels@[
                        self.current_height - 1 - k
                    ]@,
            decreases i,
        {
            i -= 1;
            rows.push(self.levels[i].clone());
        }
        rows
    }
}

} // verus!
