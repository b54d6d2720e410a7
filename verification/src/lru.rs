//! A cache that, when full, gives up the entry that has gone unused the
//! longest.
//!
//! The entries stand in a ring, the most recently used first. An entry that
//! is given up while it is the only one in the ring stays in it as a stale
//! place holder, which the next entry to be given up is; so a cache made for
//! one entry comes to hold two.

use vstd::laws_eq::obeys_concrete_eq;
use vstd::prelude::*;

verus! {

/// An entry of the ring: a key, its value, and whether the cache still
/// answers for it.
pub struct LRUNode<K, V> {
    key: K,
    value: V,
    live: bool,
}

/// What the ring holds at one place: key, value, and whether the entry is
/// live.
pub type Place<K, V> = (K, V, bool);

/// The cache.
pub struct LRUCache<K, V> {
    ring: Vec<LRUNode<K, V>>,
    capacity: i32,
    len: i32,
}

/// The place of the live entry under `key`, or the length of the ring if
/// there is none.
pub open spec fn place_of<K, V>(ring: Seq<Place<K, V>>, key: K) -> int
    decreases ring.len(),
{
    if ring.len() == 0 {
        0
    } else if ring[0].2 && ring[0].0 == key {
        0
    } else {
        1 + place_of(ring.drop_first(), key)
    }
}

/// The ring after the entry at `at` has been used: it moves to the head,
/// unless the head has its key already.
pub open spec fn promoted<K, V>(ring: Seq<Place<K, V>>, at: int) -> Seq<Place<K, V>> {
    if ring[0].0 == ring[at].0 {
        ring
    } else {
        seq![ring[at]] + ring.remove(at)
    }
}

/// The ring after its last entry has been given up: the entry goes, or, if
/// it is the only one, stays as a stale place holder.
pub open spec fn evicted<K, V>(ring: Seq<Place<K, V>>) -> Seq<Place<K, V>> {
    if ring.len() == 1 {
        seq![(ring[0].0, ring[0].1, false)]
    } else {
        ring.drop_last()
    }
}

/// The ring after `value` has been put under `key`, in a cache that is
/// `full` or not.
pub open spec fn after_put<K, V>(ring: Seq<Place<K, V>>, full: bool, key: K, value: V) -> Seq<
    Place<K, V>,
> {
    let at = place_of(ring, key);
    if at < ring.len() {
        promoted(ring.update(at, (key, value, true)), at)
    } else if full {
        seq![(key, value, true)] + evicted(ring)
    } else {
        seq![(key, value, true)] + ring
    }
}

/// The place that `place_of` finds is that of the first live entry under
/// the key, and lies within the ring or just behind it.
pub proof fn lemma_place_of<K, V>(ring: Seq<Place<K, V>>, key: K)
    ensures
        0 <= place_of(ring, key) <= ring.len(),
        place_of(ring, key) < ring.len() ==> ring[place_of(ring, key)].2 && ring[place_of(
            ring,
            key,
        )].0 == key,
        forall|i: int|
            0 <= i < place_of(ring, key) ==> !((#[trigger] ring[i]).2 && ring[i].0 == key),
    decreases ring.len(),
{
    if ring.len() > 0 && !(ring[0].2 && ring[0].0 == key) {
        let rest = ring.drop_first();
        lemma_place_of(rest, key);
        assert forall|i: int| 0 <= i < place_of(ring, key) implies !((#[trigger] ring[i]).2
            && ring[i].0 == key) by {
            if i > 0 {
                assert(rest[i - 1] == ring[i]);
            }
        }
    }
}

/// A place before which no live entry is under the key, and at which the
/// ring ends or has one, is the place that `place_of` finds.
pub proof fn lemma_place_found<K, V>(ring: Seq<Place<K, V>>, key: K, at: int)
    requires
        0 <= at <= ring.len(),
        forall|i: int| 0 <= i < at ==> !((#[trigger] ring[i]).2 && ring[i].0 == key),
        at < ring.len() ==> ring[at].2 && ring[at].0 == key,
    ensures
        place_of(ring, key) == at,
{
    lemma_place_of(ring, key);
    let found = place_of(ring, key);
    if found < at {
        assert(ring[found].2 && ring[found].0 == key);
    }
}

impl<K, V> LRUNode<K, V> {
    /// A live entry.
    pub fn new(key: K, value: V) -> (node: Self)
        ensures
            node.place() == (key, value, true),
    {
        Self { key, value, live: true }
    }

    /// What the entry holds.
    pub closed spec fn place(&self) -> Place<K, V> {
        (self.key, self.value, self.live)
    }
}

impl<K: PartialEq + Copy, V: Copy> LRUCache<K, V> {
    /// The ring, the most recently used entry first.
    pub closed spec fn order(&self) -> Seq<Place<K, V>> {
        self.ring@.map_values(|node: LRUNode<K, V>| node.place())
    }

    /// Whether the cache has taken in as many entries as it was made for.
    pub closed spec fn full(&self) -> bool {
        self.len == self.capacity
    }

    /// The invariant: the cache was made for one entry at least and has
    /// counted no more than it was made for; a cache that has counted any
    /// has a ring; and the head of a ring of several is live.
    pub closed spec fn wf(&self) -> bool {
        &&& obeys_concrete_eq::<K>()
        &&& 1 <= self.capacity
        &&& 0 <= self.len <= self.capacity
        &&& self.len >= 1 ==> self.ring@.len() >= 1
        &&& self.len == 0 ==> self.ring@.len() == 0
    }

    /// An empty cache for `capacity` entries.
    pub fn new(capacity: i32) -> (cache: Self)
        requires
            capacity >= 1,
            obeys_concrete_eq::<K>(),
        ensures
            cache.wf(),
            cache.order() == Seq::<Place<K, V>>::empty(),
            !cache.full(),
    {
        let cache = Self { ring: Vec::new(), capacity, len: 0 };
        assert(cache.order() =~= Seq::<Place<K, V>>::empty());
        cache
    }

    /// The place of the live entry under `key`, or the length of the ring.
    fn find(&self, key: &K) -> (at: usize)
        requires
            obeys_concrete_eq::<K>(),
        ensures
            at == place_of(self.order(), *key),
            at <= self.ring.len(),
            self.order().len() == self.ring.len(),
    {
        proof {
            reveal(obeys_concrete_eq);
        }
        let mut at: usize = 0;
        while at < self.ring.len()
            invariant
                obeys_concrete_eq::<K>(),
                at <= self.ring.len(),
                self.order().len() == self.ring.len(),
                forall|i: int|
                    0 <= i < at ==> !((#[trigger] self.order()[i]).2 && self.order()[i].0 == *key),
            decreases self.ring.len() - at,
        {
            proof {
                reveal(obeys_concrete_eq);
            }
            if self.ring[at].live && self.ring[at].key == *key {
                proof {
                    assert(self.order()[at as int] == self.ring@[at as int].place());
                    lemma_place_found(self.order(), *key, at as int);
                }
                return at;
            }
            proof {
                assert(self.order()[at as int] == self.ring@[at as int].place());
            }
            at += 1;
        }
        proof {
            lemma_place_found(self.order(), *key, at as int);
        }
        at
    }

    /// Moves the entry at `at` to the head of the ring, unless the head has
    /// its key already.
    pub fn move_to_head(&mut self, at: usize)
        requires
            old(self).wf(),
            at < old(self).order().len(),
        ensures
            final(self).wf(),
            final(self).order() == promoted(old(self).order(), at as int),
            final(self).full() == old(self).full(),
    {
        proof {
            reveal(obeys_concrete_eq);
            assert(self.order()[0] == self.ring@[0].place());
            assert(self.order()[at as int] == self.ring@[at as int].place());
        }
        if self.ring[0].key == self.ring[at].key {
            return ;
        }
        let node = self.ring.remove(at);
        self.ring.insert(0, node);
        proof {
            assert(self.order() =~= promoted(old(self).order(), at as int));
        }
    }

    /// Gives up the last entry of the ring.
    pub fn delete(&mut self)
        requires
            old(self).wf(),
            old(self).order().len() >= 1,
        ensures
            final(self).wf(),
            final(self).order() == evicted(old(self).order()),
            final(self).full() == old(self).full(),
    {
        if self.ring.len() == 1 {
            let node = self.ring.pop().unwrap();
            self.ring.push(LRUNode { key: node.key, value: node.value, live: false });
            proof {
                assert(self.order() =~= evicted(old(self).order()));
            }
        } else {
            self.ring.pop();
            proof {
                assert(self.order() =~= evicted(old(self).order()));
            }
        }
    }

    /// The value under `key`, which thereby becomes the most recently used
    /// entry.
    pub fn get(&mut self, key: K) -> (found: Option<V>)
        requires
            old(self).wf(),
        ensures
            final(self).wf(),
            final(self).full() == old(self).full(),
            ({
                let before = old(self).order();
                let at = place_of(before, key);
                if at < before.len() {
                    found == Some(before[at].1) && final(self).order() == promoted(before, at)
                } else {
                    found is None && final(self).order() == before
                }
            }),
    {
        let at = self.find(&key);
        if at < self.ring.len() {
            let value = self.ring[at].value;
            proof {
                assert(self.order()[at as int] == self.ring@[at as int].place());
            }
            self.move_to_head(at);
            Some(value)
        } else {
            None
        }
    }

    /// Puts `value` under `key`, as the most recently used entry. If the
    /// key is new and the cache is full, the last entry of the ring is
    /// given up for it.
    pub fn put(&mut self, key: K, value: V)
        requires
            old(self).wf(),
        ensures
            final(self).wf(),
            final(self).order() == after_put(old(self).order(), old(self).full(), key, value),
            final(self).full() == (old(self).full() || (place_of(old(self).order(), key) >= old(
                self,
            ).order().len() && old(self).one_short())),
    {
        let at = self.find(&key);
        if at < self.ring.len() {
            let node = self.ring.remove(at);
            self.ring.insert(at, LRUNode { key: node.key, value, live: true });
            proof {
                lemma_place_of(old(self).order(), key);
                assert(self.order() =~= old(self).order().update(at as int, (key, value, true)));
            }
            self.move_to_head(at);
        } else {
            if self.len == self.capacity {
                self.delete();
            } else {
                self.len += 1;
            }
            let ghost mid = self.order();
            self.ring.insert(0, LRUNode::new(key, value));
            proof {
                assert(self.order() =~= seq![(key, value, true)] + mid);
            }
        }
    }

    /// Does nothing: the ring is kept by `move_to_head` and `delete`.
    pub fn erase(&mut self)
        ensures
            *final(self) == *old(self),
    {
    }

    /// Does nothing: the ring is kept by `move_to_head` and `delete`.
    pub fn pop_back(&mut self)
        ensures
            *final(self) == *old(self),
    {
    }

    /// Does nothing: the ring is kept by `move_to_head` and `delete`.
    pub fn push_front(&mut self, node: LRUNode<K, V>)
        ensures
            *final(self) == *old(self),
    {
    }

    /// Whether the cache has room for exactly one more entry.
    pub closed spec fn one_short(&self) -> bool {
        self.len + 1 == self.capacity
    }
}

} // verus!
