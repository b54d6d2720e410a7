//! A cache that, when full, gives up the entry that has been used the
//! least often, and of several such the one whose last use is the oldest.
//! Every entry carries its use count and the time of its last use.

use vstd::laws_eq::obeys_concrete_eq;
use vstd::prelude::*;

verus! {

/// An entry: when it was last used, how often it has been used, and what
/// it holds.
pub struct LFUNode<K, V> {
    time: i32,
    cnt: i32,
    key: K,
    value: V,
}

/// What an entry records: value, use count, time of last use.
pub type Record<V> = (V, int, int);

/// The cache.
pub struct LFUCache<K, V> {
    entries: Vec<LFUNode<K, V>>,
    capacity: i32,
    time: i32,
}

/// Whether the first of two (count, time) pairs ranks below the second:
/// fewer uses, or as many and an older last use.
pub open spec fn ranks_below(cnt: int, time: int, other_cnt: int, other_time: int) -> bool {
    cnt < other_cnt || (cnt == other_cnt && time < other_time)
}

/// Whether `key` is the one to give up: no entry ranks below its own.
pub open spec fn is_victim<K, V>(table: Map<K, Record<V>>, key: K) -> bool {
    &&& table.contains_key(key)
    &&& forall|other: K| #[trigger]
        table.contains_key(other) ==> !ranks_below(
            table[other].1,
            table[other].2,
            table[key].1,
            table[key].2,
        )
}

/// The table after a use of `key` at time `clock + 1`, with `value` as what
/// the entry holds from then on.
pub open spec fn used<K, V>(table: Map<K, Record<V>>, key: K, value: V, clock: int) -> Map<
    K,
    Record<V>,
> {
    table.insert(key, (value, table[key].1 + 1, clock + 1))
}

impl<K, V> LFUNode<K, V> {
    /// Whether the entry ranks below `other`: it has been used less often,
    /// or as often and not as lately.
    fn ranks_before(&self, other: &Self) -> (below: bool)
        ensures
            below == ranks_below(
                self.cnt as int,
                self.time as int,
                other.cnt as int,
                other.time as int,
            ),
    {
        if self.cnt == other.cnt {
            self.time < other.time
        } else {
            self.cnt < other.cnt
        }
    }
}

impl<K: PartialEq + Copy, V: Copy> LFUCache<K, V> {
    /// The entries by key: value, use count and time of last use.
    pub closed spec fn table(&self) -> Map<K, Record<V>> {
        Map::new(
            |k: K| exists|i: int| 0 <= i < self.entries@.len() && #[trigger] self.entries@[i].key == k,
            |k: K|
                {
                    let i = choose|i: int|
                        0 <= i < self.entries@.len() && #[trigger] self.entries@[i].key == k;
                    (
                        self.entries@[i].value,
                        self.entries@[i].cnt as int,
                        self.entries@[i].time as int,
                    )
                },
        )
    }

    /// The number of entries.
    pub closed spec fn count(&self) -> nat {
        self.entries@.len()
    }

    /// The time of the latest use.
    pub closed spec fn clock(&self) -> int {
        self.time as int
    }

    /// The number of entries the cache was made for.
    pub closed spec fn limit(&self) -> int {
        self.capacity as int
    }

    /// The invariant: no key has two entries; every entry has been used
    /// once at least, no more often than the clock has ticked, and at a
    /// time of its own, not after the clock's.
    pub closed spec fn wf(&self) -> bool {
        &&& obeys_concrete_eq::<K>()
        &&& 0 <= self.time
        &&& forall|i: int, j: int|
            #![trigger self.entries@[i], self.entries@[j]]
            0 <= i < j < self.entries@.len() ==> self.entries@[i].key != self.entries@[j].key
                && self.entries@[i].time != self.entries@[j].time
        &&& forall|i: int|
            0 <= i < self.entries@.len() ==> 1 <= (#[trigger] self.entries@[i]).cnt
                <= self.entries@[i].time <= self.time
    }

    /// The record of the entry at a place of the list is what the table
    /// has under its key.
    proof fn lemma_table_at(&self, at: int)
        requires
            self.wf(),
            0 <= at < self.entries@.len(),
        ensures
            self.table().contains_key(self.entries@[at].key),
            self.table()[self.entries@[at].key] == (
                self.entries@[at].value,
                self.entries@[at].cnt as int,
                self.entries@[at].time as int,
            ),
    {
        let k = self.entries@[at].key;
        let i = choose|i: int| 0 <= i < self.entries@.len() && #[trigger] self.entries@[i].key == k;
        if i < at {
            assert(self.entries@[i].key != self.entries@[at].key);
        } else if at < i {
            assert(self.entries@[at].key != self.entries@[i].key);
        }
    }

    /// An empty cache for `capacity` entries.
    pub fn new(capacity: i32) -> (cache: Self)
        requires
            obeys_concrete_eq::<K>(),
        ensures
            cache.wf(),
            cache.table() == Map::<K, Record<V>>::empty(),
            cache.clock() == 0,
            cache.limit() == capacity,
            cache.count() == 0,
    {
        let cache = Self { entries: Vec::new(), capacity, time: 0 };
        assert(cache.table() =~= Map::<K, Record<V>>::empty());
        cache
    }

    /// The place of the entry under `key`, or the number of entries.
    fn find(&self, key: &K) -> (at: usize)
        requires
            self.wf(),
        ensures
            at <= self.entries@.len(),
            at < self.entries@.len() ==> self.entries@[at as int].key == *key,
            at == self.entries@.len() ==> !self.table().contains_key(*key),
    {
        let mut at: usize = 0;
        while at < self.entries.len()
            invariant
                obeys_concrete_eq::<K>(),
                at <= self.entries@.len(),
                forall|i: int| 0 <= i < at ==> (#[trigger] self.entries@[i]).key != *key,
            decreases self.entries.len() - at,
        {
            proof {
                reveal(obeys_concrete_eq);
            }
            if self.entries[at].key == *key {
                return at;
            }
            at += 1;
        }
        at
    }

    /// The place of the entry to give up.
    fn least(&self) -> (at: usize)
        requires
            self.wf(),
            self.entries@.len() > 0,
        ensures
            at < self.entries@.len(),
            is_victim(self.table(), self.entries@[at as int].key),
    {
        let mut best: usize = 0;
        let mut i: usize = 1;
        while i < self.entries.len()
            invariant
                1 <= i <= self.entries@.len(),
                best < i,
                forall|j: int|
                    0 <= j < i ==> !ranks_below(
                        (#[trigger] self.entries@[j]).cnt as int,
                        self.entries@[j].time as int,
                        self.entries@[best as int].cnt as int,
                        self.entries@[best as int].time as int,
                    ),
            decreases self.entries.len() - i,
        {
            if self.entries[i].ranks_before(&self.entries[best]) {
                best = i;
            }
            i += 1;
        }
        proof {
            self.lemma_table_at(best as int);
            let key = self.entries@[best as int].key;
            assert forall|other: K| #[trigger] self.table().contains_key(other) implies !ranks_below(
                self.table()[other].1,
                self.table()[other].2,
                self.table()[key].1,
                self.table()[key].2,
            ) by {
                let j = choose|j: int|
                    0 <= j < self.entries@.len() && #[trigger] self.entries@[j].key == other;
                self.lemma_table_at(j);
            }
        }
        best
    }

    /// Counts a use of the entry at `at`, which holds `value` from then on.
    fn touch(&mut self, at: usize, value: V)
        requires
            old(self).wf(),
            at < old(self).entries@.len(),
            old(self).clock() < i32::MAX,
        ensures
            final(self).wf(),
            final(self).table() == used(
                old(self).table(),
                old(self).entries@[at as int].key,
                value,
                old(self).clock(),
            ),
            final(self).clock() == old(self).clock() + 1,
            final(self).limit() == old(self).limit(),
            final(self).count() == old(self).count(),
    {
        let key = self.entries[at].key;
        let cnt = self.entries[at].cnt;
        let fresh = LFUNode { time: self.time + 1, cnt: cnt + 1, key, value };
        self.entries[at] = fresh;
        self.time += 1;
        proof {
            let before = old(self);
            assert forall|i: int, j: int|
                #![trigger self.entries@[i], self.entries@[j]]
                0 <= i < j < self.entries@.len() implies self.entries@[i].key
                != self.entries@[j].key && self.entries@[i].time != self.entries@[j].time by {
                assert(before.entries@[i].key != before.entries@[j].key);
                assert(before.entries@[i].time != before.entries@[j].time);
                assert(before.entries@[i].time <= before.time);
                assert(before.entries@[j].time <= before.time);
            }
            assert forall|i: int| 0 <= i < self.entries@.len() implies 1 <= (
            #[trigger] self.entries@[i]).cnt <= self.entries@[i].time <= self.time by {
                assert(1 <= before.entries@[i].cnt <= before.entries@[i].time <= before.time);
            }
            before.lemma_table_at(at as int);
            let wanted = used(before.table(), key, value, before.clock());
            assert forall|k: K| #[trigger] self.table().contains_key(k) <==> wanted.contains_key(
                k,
            ) by {
                if self.table().contains_key(k) {
                    let i = choose|i: int|
                        0 <= i < self.entries@.len() && #[trigger] self.entries@[i].key == k;
                    assert(before.entries@[i].key == k);
                }
                if before.table().contains_key(k) {
                    let i = choose|i: int|
                        0 <= i < before.entries@.len() && #[trigger] before.entries@[i].key == k;
                    assert(self.entries@[i].key == k);
                }
                assert(self.entries@[at as int].key == key);
            }
            assert forall|k: K| #[trigger] self.table().contains_key(k) implies self.table()[k]
                == wanted[k] by {
                let i = choose|i: int|
                    0 <= i < self.entries@.len() && #[trigger] self.entries@[i].key == k;
                self.lemma_table_at(i);
                if i != at {
                    before.lemma_table_at(i);
                    if i < at {
                        assert(before.entries@[i].key != before.entries@[at as int].key);
                    } else {
                        assert(before.entries@[at as int].key != before.entries@[i].key);
                    }
                }
            }
            assert(self.table() =~= wanted);
        }
    }

    /// The value under `key`, whose use is counted.
    pub fn get(&mut self, key: K) -> (found: Option<V>)
        requires
            old(self).wf(),
            old(self).clock() < i32::MAX,
        ensures
            final(self).wf(),
            final(self).limit() == old(self).limit(),
            final(self).count() == old(self).count(),
            match found {
                Some(value) => {
                    &&& old(self).table().contains_key(key)
                    &&& value == old(self).table()[key].0
                    &&& final(self).table() == used(old(self).table(), key, value, old(self).clock())
                    &&& final(self).clock() == old(self).clock() + 1
                },
                None => !old(self).table().contains_key(key) && *final(self) == *old(self),
            },
    {
        let at = self.find(&key);
        if at < self.entries.len() {
            let value = self.entries[at].value;
            proof {
                self.lemma_table_at(at as int);
            }
            self.touch(at, value);
            Some(value)
        } else {
            None
        }
    }

    /// Puts `value` under `key` and counts a use of the entry. A cache
    /// made for no entries stays empty. If the key is new and the cache
    /// holds as many entries as it was made for, the entry that ranks
    /// lowest is given up for it.
    pub fn put(&mut self, key: K, value: V)
        requires
            old(self).wf(),
            old(self).clock() < i32::MAX,
        ensures
            final(self).wf(),
            final(self).limit() == old(self).limit(),
            old(self).limit() == 0 ==> *final(self) == *old(self),
            old(self).limit() != 0 ==> final(self).clock() == old(self).clock() + 1,
            old(self).limit() != 0 && old(self).table().contains_key(key) ==> final(self).table()
                == used(old(self).table(), key, value, old(self).clock()),
            old(self).limit() != 0 && !old(self).table().contains_key(key) ==> {
                let fresh = (value, 1int, old(self).clock() + 1);
                if old(self).limit() == old(self).count() {
                    exists|victim: K|
                        is_victim(old(self).table(), victim) && #[trigger] old(
                            self,
                        ).table().remove(victim).insert(key, fresh) == final(self).table()
                } else {
                    final(self).table() == old(self).table().insert(key, fresh)
                }
            },
    {
        if self.capacity == 0 {
            return ;
        }
        let at = self.find(&key);
        if at < self.entries.len() {
            self.touch(at, value);
        } else {
            let ghost before = *self;
            let ghost fresh = (value, 1int, self.time as int + 1);
            let mut victim_key: Ghost<Option<K>> = Ghost(None);
            if self.capacity >= 0 && self.capacity as usize == self.entries.len() {
                let worst = self.least();
                proof {
                    victim_key@ = Some(self.entries@[worst as int].key);
                }
                self.entries.remove(worst);
                proof {
                    let gone = before.entries@[worst as int].key;
                    assert forall|i: int, j: int|
                        #![trigger self.entries@[i], self.entries@[j]]
                        0 <= i < j < self.entries@.len() implies self.entries@[i].key
                        != self.entries@[j].key && self.entries@[i].time
                        != self.entries@[j].time by {
                        let a = if i < worst { i } else { i + 1 };
                        let b = if j < worst { j } else { j + 1 };
                        assert(before.entries@[a].key != before.entries@[b].key);
                        assert(before.entries@[a].time != before.entries@[b].time);
                    }
                    assert forall|i: int| 0 <= i < self.entries@.len() implies 1 <= (
                    #[trigger] self.entries@[i]).cnt <= self.entries@[i].time <= self.time by {
                        let a = if i < worst { i } else { i + 1 };
                        assert(1 <= before.entries@[a].cnt <= before.entries@[a].time);
                    }
                    assert(self.wf());
                    assert forall|k: K| #[trigger] self.table().contains_key(k) <==> (
                    before.table().contains_key(k) && k != gone) by {
                        if self.table().contains_key(k) {
                            let i = choose|i: int|
                                0 <= i < self.entries@.len() && #[trigger] self.entries@[i].key
                                    == k;
                            let a = if i < worst { i } else { i + 1 };
                            assert(before.entries@[a].key == k);
                            if a < worst {
                                assert(before.entries@[a].key != before.entries@[worst as int].key);
                            } else {
                                assert(before.entries@[worst as int].key != before.entries@[a].key);
                            }
                        }
                        if before.table().contains_key(k) && k != gone {
                            let a = choose|a: int|
                                0 <= a < before.entries@.len() && #[trigger] before.entries@[a].key
                                    == k;
                            let i = if a < worst { a } else { a - 1 };
                            assert(self.entries@[i].key == k);
                        }
                    }
                    assert forall|k: K| #[trigger] self.table().contains_key(k) implies self.table()[k]
                        == before.table()[k] by {
                        let i = choose|i: int|
                            0 <= i < self.entries@.len() && #[trigger] self.entries@[i].key == k;
                        let a = if i < worst { i } else { i + 1 };
                        self.lemma_table_at(i);
                        before.lemma_table_at(a);
                    }
                    assert(self.table() =~= before.table().remove(gone));
                }
            }
            let ghost mid = *self;
            let node = LFUNode { time: self.time + 1, cnt: 1, key, value };
            self.time += 1;
            self.entries.push(node);
            proof {
                let n = mid.entries@.len() as int;
                assert forall|i: int, j: int|
                    #![trigger self.entries@[i], self.entries@[j]]
                    0 <= i < j < self.entries@.len() implies self.entries@[i].key
                    != self.entries@[j].key && self.entries@[i].time != self.entries@[j].time by {
                    if j < n {
                        assert(mid.entries@[i].key != mid.entries@[j].key);
                        assert(mid.entries@[i].time != mid.entries@[j].time);
                    } else {
                        assert(mid.entries@[i].time <= mid.time);
                        if mid.entries@[i].key == key {
                            assert(mid.table().contains_key(key));
                        }
                    }
                }
                assert forall|i: int| 0 <= i < self.entries@.len() implies 1 <= (
                #[trigger] self.entries@[i]).cnt <= self.entries@[i].time <= self.time by {
                    if i < n {
                        assert(1 <= mid.entries@[i].cnt <= mid.entries@[i].time <= mid.time);
                    }
                }
                assert(self.wf());
                assert forall|k: K| #[trigger] self.table().contains_key(k) <==> (
                mid.table().contains_key(k) || k == key) by {
                    if self.table().contains_key(k) {
                        let i = choose|i: int|
                            0 <= i < self.entries@.len() && #[trigger] self.entries@[i].key == k;
                        if i < n {
                            assert(mid.entries@[i].key == k);
                        }
                    }
                    if mid.table().contains_key(k) {
                        let i = choose|i: int|
                            0 <= i < mid.entries@.len() && #[trigger] mid.entries@[i].key == k;
                        assert(self.entries@[i].key == k);
                    }
                    assert(self.entries@[n].key == key);
                }
                assert forall|k: K| #[trigger] self.table().contains_key(k) implies self.table()[k]
                    == mid.table().insert(key, fresh)[k] by {
                    let i = choose|i: int|
                        0 <= i < self.entries@.len() && #[trigger] self.entries@[i].key == k;
                    self.lemma_table_at(i);
                    if i < n {
                        mid.lemma_table_at(i);
                    }
                }
                assert(self.table() =~= mid.table().insert(key, fresh));
                if victim_key@ is Some {
                    assert(before.table().remove(victim_key@->0).insert(key, fresh)
                        == self.table());
                }
            }
        }
    }
}

} // verus!
