//! A total order for the elements of the search trees.
//!
//! Every element has a key, a finite sequence of integers, and elements are
//! ordered as their keys are in the dictionary order. A number is its own
//! one-letter key; a string's key spells its bytes.

use vstd::prelude::*;
use vstd::string::StringSliceAdditionalSpecFns;

verus! {

/// How one element stands to another.
#[derive(Clone, Copy, Debug, PartialEq, Eq)]
pub enum Relation {
    /// It comes first.
    Before,
    /// The two have the same key.
    Same,
    /// It comes second.
    After,
}

/// Whether `a` comes before `b` in the dictionary order.
pub open spec fn precedes(a: Seq<int>, b: Seq<int>) -> bool
    decreases a.len(),
{
    if b.len() == 0 {
        false
    } else if a.len() == 0 {
        true
    } else if a[0] != b[0] {
        a[0] < b[0]
    } else {
        precedes(a.drop_first(), b.drop_first())
    }
}

/// How `a` stands to `b` in the dictionary order.
pub open spec fn relation(a: Seq<int>, b: Seq<int>) -> Relation {
    if precedes(a, b) {
        Relation::Before
    } else if a == b {
        Relation::Same
    } else {
        Relation::After
    }
}

/// No key comes before itself.
pub proof fn lemma_irreflexive(a: Seq<int>)
    ensures
        !precedes(a, a),
    decreases a.len(),
{
    if a.len() > 0 {
        lemma_irreflexive(a.drop_first());
    }
}

/// Of two different keys exactly one comes before the other.
pub proof fn lemma_connected(a: Seq<int>, b: Seq<int>)
    ensures
        precedes(a, b) || precedes(b, a) || a == b,
        !(precedes(a, b) && precedes(b, a)),
    decreases a.len(),
{
    if a.len() == 0 || b.len() == 0 {
        if a.len() == 0 && b.len() == 0 {
            assert(a =~= b);
        }
    } else if a[0] == b[0] {
        lemma_connected(a.drop_first(), b.drop_first());
        if a.drop_first() == b.drop_first() {
            assert(a =~= seq![a[0]] + a.drop_first());
            assert(b =~= seq![b[0]] + b.drop_first());
        }
    }
}

/// The order is transitive.
pub proof fn lemma_transitive(a: Seq<int>, b: Seq<int>, c: Seq<int>)
    requires
        precedes(a, b),
        precedes(b, c),
    ensures
        precedes(a, c),
    decreases a.len(),
{
    if a.len() > 0 && a[0] == b[0] && b[0] == c[0] {
        lemma_transitive(a.drop_first(), b.drop_first(), c.drop_first());
    }
}

/// What comes before a key comes before everything that the key does not
/// come after.
pub proof fn lemma_before_then_not_after(a: Seq<int>, b: Seq<int>, c: Seq<int>)
    requires
        precedes(a, b),
        !precedes(c, b),
    ensures
        precedes(a, c),
{
    lemma_connected(a, c);
    lemma_connected(a, b);
    if precedes(c, a) {
        lemma_transitive(c, a, b);
    }
}

/// An element with a place in the order.
pub trait Ordered: Sized {
    /// The key by which the element is ordered.
    spec fn key(&self) -> Seq<int>;

    /// Compares two elements by their keys.
    fn relate(&self, other: &Self) -> (r: Relation)
        ensures
            r == relation(self.key(), other.key()),
    ;
}

impl Ordered for i32 {
    open spec fn key(&self) -> Seq<int> {
        seq![*self as int]
    }

    fn relate(&self, other: &Self) -> (r: Relation) {
        proof {
            let a = self.key();
            let b = other.key();
            assert(a.drop_first() =~= Seq::<int>::empty());
            assert(b.drop_first() =~= Seq::<int>::empty());
            assert(!precedes(a.drop_first(), b.drop_first()));
            if *self == *other {
                assert(a =~= b);
            } else {
                assert(a[0] != b[0]);
            }
        }
        if *self < *other {
            Relation::Before
        } else if *self == *other {
            Relation::Same
        } else {
            Relation::After
        }
    }
}

impl Ordered for u64 {
    open spec fn key(&self) -> Seq<int> {
        seq![*self as int]
    }

    fn relate(&self, other: &Self) -> (r: Relation) {
        proof {
            let a = self.key();
            let b = other.key();
            assert(a.drop_first() =~= Seq::<int>::empty());
            assert(b.drop_first() =~= Seq::<int>::empty());
            assert(!precedes(a.drop_first(), b.drop_first()));
            if *self == *other {
                assert(a =~= b);
            } else {
                assert(a[0] != b[0]);
            }
        }
        if *self < *other {
            Relation::Before
        } else if *self == *other {
            Relation::Same
        } else {
            Relation::After
        }
    }
}

/// The key that spells the bytes of a string.
pub open spec fn spelled(bytes: Seq<u8>) -> Seq<int> {
    bytes.map_values(|b: u8| b as int)
}

/// Compares two byte strings in the dictionary order.
pub fn relate_bytes(a: &[u8], b: &[u8]) -> (r: Relation)
    ensures
        r == relation(spelled(a@), spelled(b@)),
{
    let ghost ka = spelled(a@);
    let ghost kb = spelled(b@);
    let mut i: usize = 0;
    proof {
        assert(ka.skip(0) =~= ka);
        assert(kb.skip(0) =~= kb);
        assert(ka.take(0) =~= kb.take(0));
    }
    while i < a.len() && i < b.len()
        invariant
            ka == spelled(a@),
            kb == spelled(b@),
            i <= a.len(),
            i <= b.len(),
            ka.take(i as int) == kb.take(i as int),
            precedes(ka, kb) == precedes(ka.skip(i as int), kb.skip(i as int)),
            precedes(kb, ka) == precedes(kb.skip(i as int), ka.skip(i as int)),
        decreases a.len() - i,
    {
        let x = a[i];
        let y = b[i];
        proof {
            let sa = ka.skip(i as int);
            let sb = kb.skip(i as int);
            assert(sa[0] == x as int && sb[0] == y as int);
            assert(sa.drop_first() =~= ka.skip(i + 1));
            assert(sb.drop_first() =~= kb.skip(i + 1));
            assert(ka.take(i + 1) =~= ka.take(i as int).push(x as int));
            assert(kb.take(i + 1) =~= kb.take(i as int).push(y as int));
        }
        if x < y {
            proof {
                lemma_connected(ka, kb);
            }
            return Relation::Before;
        }
        if x > y {
            proof {
                lemma_connected(ka, kb);
                if ka == kb {
                    assert(ka[i as int] == kb[i as int]);
                }
            }
            return Relation::After;
        }
        i += 1;
    }
    proof {
        let sa = ka.skip(i as int);
        let sb = kb.skip(i as int);
        lemma_connected(ka, kb);
        if i == a.len() && i == b.len() {
            assert(ka.take(i as int) =~= ka);
            assert(kb.take(i as int) =~= kb);
        } else if i == a.len() {
            assert(sa.len() == 0 && sb.len() > 0);
        } else {
            assert(sb.len() == 0 && sa.len() > 0);
            assert(ka.len() != kb.len());
        }
    }
    if i < b.len() {
        Relation::Before
    } else if i < a.len() {
        Relation::After
    } else {
        Relation::Same
    }
}

impl<'a> Ordered for &'a str {
    open spec fn key(&self) -> Seq<int> {
        spelled(self.spec_bytes())
    }

    fn relate(&self, other: &Self) -> (r: Relation) {
        relate_bytes(self.as_bytes(), other.as_bytes())
    }
}

} // verus!
