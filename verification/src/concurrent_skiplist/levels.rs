//! One level of a skip list: a sorted list of integers.

use vstd::multiset::Multiset;
use vstd::prelude::*;

verus! {

/// Whether the list is sorted.
pub open spec fn ordered(level: Seq<i32>) -> bool {
    forall|i: int, j: int|
        #![trigger level[i], level[j]]
        0 <= i <= j < level.len() ==> level[i] <= level[j]
}

/// How often `x` occurs in the list.
pub open spec fn count(level: Seq<i32>, x: i32) -> nat {
    level.to_multiset().count(x)
}

/// A list with `x` put in at any place has one more of `x` and as many of
/// everything else.
pub proof fn lemma_count_insert(level: Seq<i32>, at: int, x: i32)
    requires
        0 <= at <= level.len(),
    ensures
        level.insert(at, x).to_multiset() == level.to_multiset().insert(x),
{
    let more = level.insert(at, x);
    more.to_multiset_ensures();
    level.to_multiset_ensures();
    assert(more.remove(at) =~= level);
    assert(more[at] == x);
    assert(more.contains(x));
    assert(level.to_multiset() =~= more.to_multiset().remove(x));
    assert(more.to_multiset() =~= level.to_multiset().insert(x));
}

/// A list without the element at a place has one fewer of that element and
/// as many of everything else.
pub proof fn lemma_count_remove(level: Seq<i32>, at: int)
    requires
        0 <= at < level.len(),
    ensures
        level.remove(at).to_multiset() == level.to_multiset().remove(level[at]),
{
    level.to_multiset_ensures();
}

/// An element of a list occurs in it, and what occurs in it is one of its
/// elements.
pub proof fn lemma_count_positive(level: Seq<i32>, x: i32)
    ensures
        count(level, x) > 0 <==> level.contains(x),
{
    level.to_multiset_ensures();
}

/// Nothing occurs in an empty list.
pub proof fn lemma_count_empty(level: Seq<i32>)
    requires
        level.len() == 0,
    ensures
        level.to_multiset() == Multiset::<i32>::empty(),
        forall|x: i32| count(level, x) == 0,
{
    broadcast use vstd::multiset::group_multiset_axioms;

    assert forall|x: i32| count(level, x) == 0 by {
        lemma_count_positive(level, x);
    }
    assert forall|x: i32|
        level.to_multiset().count(x) == #[trigger] Multiset::<i32>::empty().count(x) by {
        assert(count(level, x) == 0);
    }
    assert(level.to_multiset() =~= Multiset::<i32>::empty());
}

/// The place of the first element of the level that is not less than
/// `target`, or the length of the level if they all are.
pub fn lower_bound(level: &Vec<i32>, target: i32) -> (at: usize)
    requires
        ordered(level@),
    ensures
        at <= level@.len(),
        forall|i: int| 0 <= i < at ==> (#[trigger] level@[i]) < target,
        forall|i: int| at <= i < level@.len() ==> (#[trigger] level@[i]) >= target,
{
    let mut at: usize = 0;
    while at < level.len() && level[at] < target
        invariant
            ordered(level@),
            at <= level@.len(),
            forall|i: int| 0 <= i < at ==> (#[trigger] level@[i]) < target,
        decreases level.len() - at,
    {
        at += 1;
    }
    proof {
        assert forall|i: int| at <= i < level@.len() implies (#[trigger] level@[i]) >= target by {
            assert(level@[at as int] <= level@[i]);
        }
    }
    at
}

/// Whether `target` occurs in the level.
pub fn holds(level: &Vec<i32>, target: i32) -> (found: bool)
    requires
        ordered(level@),
    ensures
        found == (count(level@, target) > 0),
{
    let at = lower_bound(level, target);
    proof {
        lemma_count_positive(level@, target);
        if level@.contains(target) {
            let i = choose|i: int| 0 <= i < level@.len() && level@[i] == target;
            assert(at <= i);
            assert(level@[at as int] <= level@[i]);
        }
    }
    at < level.len() && level[at] == target
}

/// Puts `target` into the level, at its place in the order.
pub fn insert_sorted(level: &mut Vec<i32>, target: i32)
    requires
        ordered(old(level)@),
    ensures
        ordered(final(level)@),
        final(level)@.to_multiset() == old(level)@.to_multiset().insert(target),
{
    let at = lower_bound(level, target);
    level.insert(at, target);
    proof {
        lemma_count_insert(old(level)@, at as int, target);
        let before = old(level)@;
        let after = level@;
        assert forall|i: int, j: int|
            #![trigger after[i], after[j]]
            0 <= i <= j < after.len() implies after[i] <= after[j] by {
            let a = if i < at { i } else { i - 1 };
            let b = if j < at { j } else { j - 1 };
            if i != at && j != at {
                assert(before[a] <= before[b]);
            } else if i == at && j != at {
                assert(before[b] >= target);
            } else if j == at && i != at {
                assert(before[a] < target);
            }
        }
    }
}

/// Takes one `target` out of the level, if it has any, and says whether it
/// had.
pub fn remove_one(level: &mut Vec<i32>, target: i32) -> (found: bool)
    requires
        ordered(old(level)@),
    ensures
        ordered(final(level)@),
        found == (count(old(level)@, target) > 0),
        final(level)@.to_multiset() == if found {
            old(level)@.to_multiset().remove(target)
        } else {
            old(level)@.to_multiset()
        },
{
    let found = holds(level, target);
    if found {
        let at = lower_bound(level, target);
        proof {
            lemma_count_positive(level@, target);
            let i = choose|i: int| 0 <= i < level@.len() && level@[i] == target;
            assert(level@[at as int] <= level@[i]);
        }
        level.remove(at);
        proof {
            lemma_count_remove(old(level)@, at as int);
            let before = old(level)@;
            let after = level@;
            assert forall|i: int, j: int|
                #![trigger after[i], after[j]]
                0 <= i <= j < after.len() implies after[i] <= after[j] by {
                let a = if i < at { i } else { i + 1 };
                let b = if j < at { j } else { j + 1 };
                assert(before[a] <= before[b]);
            }
        }
    }
    found
}

} // verus!
