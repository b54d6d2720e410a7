//! The directory: slots that share buckets, and the operations that keep
//! local and global depth in step.

use vstd::arithmetic::power2::{lemma_pow2_pos, pow2};
use vstd::prelude::*;
use vstd::string::StringExecFns;

use crate::bits::{
    binary_numeral, bit_is_set, depth_limit, lemma_low_bits_coarser, lemma_low_bits_nested, lemma_low_bits_periodic, lemma_low_bits_range,
    lemma_low_bits_small, lemma_low_bits_window, lemma_pow2_monotone, lemma_sibling,
    lemma_sibling_covers, lemma_sibling_in_directory, low_bits, mask_low, max_depth, power_of_two,
    sibling,
};
use crate::extendible_hashing::key::hash_index;
use crate::extendible_hashing::bucket::Bucket;
use crate::extendible_hashing::key::{hash_word, piece, routed, slot_of, HashKey};
use crate::extendible_hashing::model::{accepts, answers, stored, updated};

verus! {

/// What `remove` does to the directory once the entry is gone.
pub enum Mode {
    /// Nothing.
    No,
    /// Fold the bucket into its sibling if it has become empty.
    Merge,
    /// Fold as `Merge` does, then halve the directory if no bucket needs
    /// its full width.
    Shrink,
}

/// Why an insertion could not be carried out.
#[derive(Debug, Clone, Copy, PartialEq, Eq)]
pub enum InsertError {
    /// The bucket the key routes to is full of keys that share every hash
    /// bit a slot number can hold with it, so that no split can part them.
    DepthExhausted,
}

/// An extendible-hashing index from `K` to `V`.
///
/// The buckets live in an arena; a directory slot holds the arena position
/// of the bucket it routes to, so that several slots can share one bucket.
pub struct ExtendiableHash<K: HashKey, V> {
    entries: Vec<usize>,
    buckets: Vec<Bucket<K, V>>,
    global_depth: usize,
    bucket_cap: usize,
}

impl<K: HashKey, V: Copy> View for ExtendiableHash<K, V> {
    type V = Map<K, V>;

    /// The index as a map: a key is present when the bucket it routes to
    /// holds it.
    closed spec fn view(&self) -> Map<K, V> {
        Map::new(
            |k: K| self.table_at(slot_of(k, self.depth())).contains_key(k),
            |k: K| self.table_at(slot_of(k, self.depth()))[k],
        )
    }
}

impl<K: HashKey, V: Copy> ExtendiableHash<K, V> {
    /// The global depth: the number of hash bits that address a slot.
    pub closed spec fn depth(&self) -> nat {
        self.global_depth as nat
    }

    /// The number of slots.
    pub closed spec fn len(&self) -> nat {
        self.entries.len() as nat
    }

    /// The capacity every bucket is made with.
    pub closed spec fn capacity(&self) -> nat {
        self.bucket_cap as nat
    }

    /// The identity of the bucket that `slot` references. Two slots share a
    /// bucket exactly when their handles are equal.
    pub closed spec fn handle(&self, slot: int) -> int {
        self.entries[slot] as int
    }

    /// The local depth of the bucket that `slot` references.
    pub closed spec fn depth_at(&self, slot: int) -> nat {
        self.buckets[self.entries[slot] as int].depth()
    }

    /// The contents of the bucket that `slot` references.
    pub closed spec fn table_at(&self, slot: int) -> Map<K, V> {
        self.buckets[self.entries[slot] as int]@
    }

    /// Whether some slot references the bucket at arena position `b`.
    spec fn referenced(&self, b: int) -> bool {
        exists|i: int| 0 <= i < self.entries.len() && #[trigger] self.entries[i] == b
    }

    /// The invariant of the index but for its last clause: a bucket that
    /// no slot names may still stand in the arena.
    spec fn routes_well(&self) -> bool {
        &&& 1 <= self.global_depth <= max_depth()
        &&& self.entries.len() == pow2(self.global_depth as nat)
        &&& forall|i: int|
            0 <= i < self.entries.len() ==> (#[trigger] self.entries[i]) < self.buckets.len()
        &&& forall|b: int|
            0 <= b < self.buckets.len() ==> {
                &&& 1 <= (#[trigger] self.buckets[b]).depth() <= self.global_depth
                &&& self.buckets[b].capacity() == self.bucket_cap
                &&& self.buckets[b].within_capacity()
            }
        &&& forall|i: int, j: int|
            #![trigger self.entries[i], self.entries[j]]
            0 <= i < self.entries.len() && 0 <= j < self.entries.len() ==> (self.entries[i]
                == self.entries[j] <==> low_bits(i, self.buckets[self.entries[i] as int].depth())
                == low_bits(j, self.buckets[self.entries[i] as int].depth()))
        &&& forall|b: int, k: K|
            0 <= b < self.buckets.len() && #[trigger] self.buckets[b]@.contains_key(k)
                ==> self.entries[slot_of(k, self.global_depth as nat)] == b
    }

    /// The invariant of the index.
    ///
    /// The directory has `2^depth` slots, each naming a bucket of the arena;
    /// every bucket is made with the directory's capacity, holds no more
    /// than that, and has a local depth between one and the global depth;
    /// two slots name the same bucket exactly when they agree on as many
    /// low-order bits as that bucket's local depth; every key is stored in
    /// the bucket it routes to; and the arena holds no bucket that no slot
    /// names.
    pub closed spec fn wf(&self) -> bool {
        &&& self.routes_well()
        &&& forall|b: int| 0 <= b < self.buckets.len() ==> #[trigger] self.referenced(b)
    }

    /// Creates an index of `2^global_depth` slots, each with an empty
    /// bucket of its own.
    pub fn new(global_depth: usize, bucket_cap: usize) -> (dir: Self)
        requires
            1 <= global_depth <= max_depth(),
        ensures
            dir.wf(),
            dir@ == Map::<K, V>::empty(),
            dir.depth() == global_depth,
            dir.len() == pow2(global_depth as nat),
            dir.capacity() == bucket_cap,
            forall|slot: int|
                0 <= slot < dir.len() ==> #[trigger] dir.depth_at(slot) == global_depth
                    && dir.handle(slot) == slot && dir.table_at(slot) == Map::<K, V>::empty(),
    {
        let count = power_of_two(global_depth);
        let mut entries: Vec<usize> = Vec::new();
        let mut buckets: Vec<Bucket<K, V>> = Vec::new();
        let mut i: usize = 0;
        while i < count
            invariant
                i <= count,
                entries.len() == i,
                buckets.len() == i,
                forall|j: int| 0 <= j < i ==> #[trigger] entries[j] == j,
                forall|j: int|
                    0 <= j < i ==> {
                        &&& (#[trigger] buckets[j])@ == Map::<K, V>::empty()
                        &&& buckets[j].capacity() == bucket_cap
                        &&& buckets[j].depth() == global_depth
                    },
            decreases count - i,
        {
            entries.push(i);
            buckets.push(Bucket::new(bucket_cap, global_depth));
            i += 1;
        }
        let dir = Self { entries, buckets, global_depth, bucket_cap };
        proof {
            assert forall|a: int, b: int|
                #![trigger dir.entries[a], dir.entries[b]]
                0 <= a < dir.entries.len() && 0 <= b < dir.entries.len() implies (dir.entries[a]
                == dir.entries[b] <==> low_bits(a, dir.buckets[dir.entries[a] as int].depth())
                == low_bits(b, dir.buckets[dir.entries[a] as int].depth())) by {
                lemma_low_bits_small(a, global_depth as nat);
                lemma_low_bits_small(b, global_depth as nat);
            }
            assert forall|b: int| 0 <= b < dir.buckets.len() implies #[trigger] dir.referenced(
                b,
            ) by {
                assert(dir.entries[b] == b);
            }
            assert(dir@ =~= Map::<K, V>::empty()) by {
                assert forall|k: K| !dir@.contains_key(k) by {
                    lemma_low_bits_range(hash_index(k) as int, global_depth as nat);
                }
            }
        }
        dir
    }

    /// The slot that `key` routes to: its hash, masked to the global depth.
    fn hash(&self, key: &K) -> (slot: usize)
        requires
            self.wf(),
        ensures
            slot == slot_of(*key, self.depth()),
            slot < self.len(),
    {
        let word = hash_word(key);
        proof {
            lemma_low_bits_range(word as int, self.global_depth as nat);
        }
        mask_low(word, self.global_depth)
    }

    /// Whether `self` and `other` have the same directory: the same
    /// depth, capacity and slots, each slot with the same bucket at the
    /// same local depth.
    pub open spec fn same_directory(&self, other: &Self) -> bool {
        &&& self.depth() == other.depth()
        &&& self.len() == other.len()
        &&& self.capacity() == other.capacity()
        &&& forall|slot: int|
            0 <= slot < self.len() ==> #[trigger] self.handle(slot) == other.handle(slot)
                && self.depth_at(slot) == other.depth_at(slot)
    }

    /// Changing the contents of one bucket keeps the index well formed, as
    /// long as the bucket stays within capacity and every key that is new
    /// to it routes to it.
    proof fn lemma_table_changed(before: &Self, after: &Self, b: int)
        requires
            before.wf(),
            0 <= b < before.buckets.len(),
            after.entries == before.entries,
            after.global_depth == before.global_depth,
            after.bucket_cap == before.bucket_cap,
            after.buckets.len() == before.buckets.len(),
            forall|x: int|
                0 <= x < before.buckets.len() && x != b ==> #[trigger] after.buckets[x]
                    == before.buckets[x],
            after.buckets[b].depth() == before.buckets[b].depth(),
            after.buckets[b].capacity() == before.buckets[b].capacity(),
            after.buckets[b].within_capacity(),
            forall|k: K| #[trigger]
                after.buckets[b]@.contains_key(k) ==> before.buckets[b]@.contains_key(k)
                    || after.entries[slot_of(k, after.global_depth as nat)] == b,
        ensures
            after.wf(),
            after.same_directory(before),
    {
        assert forall|x: int| 0 <= x < after.buckets.len() implies #[trigger] after.referenced(
            x,
        ) by {
            assert(before.referenced(x));
            let i = choose|i: int|
                0 <= i < before.entries.len() && #[trigger] before.entries[i] == x;
            assert(after.entries[i] == x);
        }
        assert forall|i: int, j: int|
            #![trigger after.entries[i], after.entries[j]]
            0 <= i < after.entries.len() && 0 <= j < after.entries.len() implies (after.entries[i]
            == after.entries[j] <==> low_bits(i, after.buckets[after.entries[i] as int].depth())
            == low_bits(j, after.buckets[after.entries[i] as int].depth())) by {
            assert(before.entries[i] == before.entries[j] <==> low_bits(
                i,
                before.buckets[before.entries[i] as int].depth(),
            ) == low_bits(j, before.buckets[before.entries[i] as int].depth()));
        }
        assert forall|x: int, k: K|
            0 <= x < after.buckets.len() && #[trigger] after.buckets[x]@.contains_key(
                k,
            ) implies after.entries[slot_of(k, after.global_depth as nat)] == x by {
            if x != b {
                assert(before.buckets[x]@.contains_key(k));
            } else if before.buckets[b]@.contains_key(k) {
            }
        }
        assert forall|slot: int| 0 <= slot < after.len() implies #[trigger] after.handle(slot)
            == before.handle(slot) && after.depth_at(slot) == before.depth_at(slot) by {
            assert(before.entries[slot] < before.buckets.len());
        }
    }

    /// Overwrites the value under `key`; does nothing where the key is
    /// absent. The directory stays as it is.
    pub fn update(&mut self, key: K, value: V)
        requires
            old(self).wf(),
        ensures
            final(self).wf(),
            final(self)@ == updated(old(self)@, key, value),
            final(self).same_directory(old(self)),
    {
        let slot = self.hash(&key);
        let b = self.entries[slot];
        self.buckets[b].update(key, value);
        proof {
            let before = old(self);
            if before.buckets[b as int]@.contains_key(key) {
                assert(self.buckets[b as int]@.dom() =~= before.buckets[b as int]@.dom());
            }
            Self::lemma_table_changed(before, self, b as int);
            Self::lemma_view_after_table_change(before, self, b as int, key);
        }
    }

    /// After a change to what bucket `b` stores under `key` alone, the
    /// index as a map has changed at `key` alone, and in the same way.
    proof fn lemma_view_after_table_change(before: &Self, after: &Self, b: int, key: K)
        requires
            before.wf(),
            0 <= b < before.buckets.len(),
            before.entries[slot_of(key, before.global_depth as nat)] == b,
            after.entries == before.entries,
            after.global_depth == before.global_depth,
            after.buckets.len() == before.buckets.len(),
            forall|x: int|
                0 <= x < before.buckets.len() && x != b ==> #[trigger] after.buckets[x]
                    == before.buckets[x],
            forall|k: K|
                k != key ==> (#[trigger] after.buckets[b]@.contains_key(k)
                    <==> before.buckets[b]@.contains_key(k)),
            forall|k: K|
                k != key && before.buckets[b]@.contains_key(k) ==> #[trigger] after.buckets[b]@[k]
                    == before.buckets[b]@[k],
        ensures
            after@.contains_key(key) <==> after.buckets[b]@.contains_key(key),
            after@.contains_key(key) ==> after@[key] == after.buckets[b]@[key],
            before@.contains_key(key) <==> before.buckets[b]@.contains_key(key),
            before@.contains_key(key) ==> before@[key] == before.buckets[b]@[key],
            forall|k: K| k != key ==> (#[trigger] after@.contains_key(k) <==> before@.contains_key(k)),
            forall|k: K| k != key && before@.contains_key(k) ==> #[trigger] after@[k] == before@[k],
            after.buckets[b]@ == before.buckets[b]@ ==> after@ == before@,
            forall|v: V|
                after.buckets[b]@ == before.buckets[b]@.insert(key, v) ==> after@
                    == before@.insert(key, v),
            after.buckets[b]@ == before.buckets[b]@.remove(key) ==> after@ == before@.remove(key),
    {
        let gd = before.global_depth as nat;
        assert forall|k: K| k != key implies (#[trigger] after@.contains_key(k)
            <==> before@.contains_key(k)) && (before@.contains_key(k) ==> after@[k]
            == before@[k]) by {
            lemma_low_bits_range(hash_index(k) as int, gd);
            let x = before.entries[slot_of(k, gd)] as int;
            if x != b {
                assert(after.buckets[x] == before.buckets[x]);
            }
        }
        lemma_low_bits_range(hash_index(key) as int, gd);
        if after.buckets[b]@ == before.buckets[b]@ {
            assert(after@ =~= before@);
        }
        assert forall|v: V|
            after.buckets[b]@ == before.buckets[b]@.insert(key, v) implies after@
            == before@.insert(key, v) by {
            assert(after@ =~= before@.insert(key, v));
        }
        if after.buckets[b]@ == before.buckets[b]@.remove(key) {
            assert(after@ =~= before@.remove(key));
        }
    }

    /// A mutable reference to the value stored under `key`. Whatever the
    /// caller writes through it becomes the value under `key`; nothing
    /// else changes.
    pub fn get_mut(&mut self, key: &K) -> (found: Option<&mut V>)
        requires
            old(self).wf(),
        ensures
            final(self).wf(),
            final(self).same_directory(old(self)),
            match found {
                Some(value) => old(self)@.contains_key(*key) && *value == old(self)@[*key]
                    && final(self)@ == old(self)@.insert(*key, *final(value)),
                None => !old(self)@.contains_key(*key) && final(self)@ == old(self)@,
            },
    {
        let slot = self.hash(key);
        let b = self.entries[slot];
        let found = self.buckets[b].get_mut(key);
        proof {
            let before = old(self);
            let after = after_borrow(*self);
            assert(after.buckets[b as int]@.dom() =~= before.buckets[b as int]@.dom());
            Self::lemma_table_changed(before, &after, b as int);
            Self::lemma_view_after_table_change(before, &after, b as int, *key);
        }
        found
    }

    /// A directory whose slots repeat, in a second half, those of a well
    /// formed one is well formed at one more bit of depth, and is the same
    /// map.
    proof fn lemma_grown(before: &Self, after: &Self)
        requires
            before.wf(),
            before.global_depth < max_depth(),
            after.global_depth == before.global_depth + 1,
            after.bucket_cap == before.bucket_cap,
            after.buckets == before.buckets,
            after.entries.len() == 2 * before.entries.len(),
            forall|j: int|
                0 <= j < after.entries.len() ==> #[trigger] after.entries[j]
                    == before.entries[low_bits(j, before.global_depth as nat)],
        ensures
            after.wf(),
            after@ == before@,
    {
        let gd = before.global_depth as nat;
        vstd::arithmetic::power2::lemma_pow2_unfold(gd + 1);
        assert forall|j: int| 0 <= j < after.entries.len() implies 0 <= #[trigger] low_bits(j, gd)
            < before.entries.len() by {
            lemma_low_bits_range(j, gd);
        }
        assert forall|i: int, j: int|
            #![trigger after.entries[i], after.entries[j]]
            0 <= i < after.entries.len() && 0 <= j < after.entries.len() implies (after.entries[i]
            == after.entries[j] <==> low_bits(i, after.buckets[after.entries[i] as int].depth())
            == low_bits(j, after.buckets[after.entries[i] as int].depth())) by {
            let i0 = low_bits(i, gd);
            let j0 = low_bits(j, gd);
            let d = before.buckets[before.entries[i0] as int].depth();
            assert(before.entries[i0] == before.entries[j0] <==> low_bits(i0, d) == low_bits(
                j0,
                d,
            ));
            lemma_low_bits_nested(i, gd, d);
            lemma_low_bits_nested(j, gd, d);
        }
        assert forall|x: int, k: K|
            0 <= x < after.buckets.len() && #[trigger] after.buckets[x]@.contains_key(
                k,
            ) implies after.entries[slot_of(k, after.global_depth as nat)] == x by {
            Self::lemma_route_grown(before, after, k);
        }
        assert forall|x: int| 0 <= x < after.buckets.len() implies #[trigger] after.referenced(
            x,
        ) by {
            assert(before.referenced(x));
            let i = choose|i: int|
                0 <= i < before.entries.len() && #[trigger] before.entries[i] == x;
            lemma_low_bits_small(i, gd);
            assert(after.entries[i] == x);
        }
        assert(after@ =~= before@) by {
            assert forall|k: K|
                after.entries[slot_of(k, after.global_depth as nat)] == before.entries[slot_of(
                    k,
                    gd,
                )] by {
                Self::lemma_route_grown(before, after, k);
            }
        }
    }

    /// After the directory has doubled, every key routes to the bucket it
    /// routed to before.
    proof fn lemma_route_grown(before: &Self, after: &Self, k: K)
        requires
            before.wf(),
            before.global_depth < max_depth(),
            after.global_depth == before.global_depth + 1,
            after.entries.len() == 2 * before.entries.len(),
            forall|j: int|
                0 <= j < after.entries.len() ==> #[trigger] after.entries[j]
                    == before.entries[low_bits(j, before.global_depth as nat)],
        ensures
            0 <= slot_of(k, after.global_depth as nat) < after.entries.len(),
            after.entries[slot_of(k, after.global_depth as nat)] == before.entries[slot_of(
                k,
                before.global_depth as nat,
            )],
    {
        let gd = before.global_depth as nat;
        let word = hash_index(k) as int;
        vstd::arithmetic::power2::lemma_pow2_unfold(gd + 1);
        lemma_low_bits_range(word, gd + 1);
        lemma_low_bits_nested(word, gd + 1, gd);
    }

    /// Doubles the directory: slot `i + 2^depth` starts out sharing the
    /// bucket of slot `i`, and the global depth rises by one. No bucket
    /// changes.
    fn grow(&mut self)
        requires
            old(self).wf(),
            old(self).depth() < max_depth(),
        ensures
            final(self).wf(),
            final(self)@ == old(self)@,
            final(self).depth() == old(self).depth() + 1,
            final(self).len() == 2 * old(self).len(),
            final(self).capacity() == old(self).capacity(),
            final(self).buckets == old(self).buckets,
            forall|slot: int|
                0 <= slot < final(self).len() ==> #[trigger] final(self).entries[slot] == old(
                    self,
                ).entries[low_bits(slot, old(self).depth())],
    {
        let count = self.entries.len();
        self.entries.reserve(count);
        for i in 0..count
            invariant
                count == old(self).entries.len(),
                self.entries.len() == count + i,
                self.buckets == old(self).buckets,
                self.global_depth == old(self).global_depth,
                self.bucket_cap == old(self).bucket_cap,
                forall|j: int| 0 <= j < count ==> #[trigger] self.entries[j] == old(self).entries[j],
                forall|j: int|
                    count <= j < count + i ==> #[trigger] self.entries[j] == old(self).entries[j
                        - count],
        {
            let shared = self.entries[i];
            self.entries.push(shared);
        }
        self.global_depth += 1;
        proof {
            let gd = old(self).global_depth as nat;
            assert forall|j: int| 0 <= j < self.entries.len() implies #[trigger] self.entries[j]
                == old(self).entries[low_bits(j, gd)] by {
                if j < count {
                    lemma_low_bits_small(j, gd);
                } else {
                    lemma_low_bits_small(j - count, gd);
                    lemma_low_bits_periodic(j - count, 1, gd);
                }
            }
            Self::lemma_grown(old(self), self);
        }
    }

    /// Splitting the bucket of slot `id` in a directory that has room for
    /// one more bit of it keeps the index well formed and the same map.
    proof fn lemma_split(before: &Self, after: &Self, id: usize)
        requires
            before.wf(),
            id < before.entries.len(),
            before.buckets[before.entries[id as int] as int].depth() < before.global_depth,
            after.global_depth == before.global_depth,
            after.bucket_cap == before.bucket_cap,
            after.entries.len() == before.entries.len(),
            after.buckets.len() == before.buckets.len() + 1,
            forall|x: int|
                0 <= x < before.buckets.len() && x != before.entries[id as int]
                    ==> #[trigger] after.buckets[x] == before.buckets[x],
            ({
                let b = before.entries[id as int] as int;
                let f = before.buckets.len() as int;
                let nd = before.buckets[b].depth() + 1;
                let suffix = low_bits(sibling(id, nd) as int, nd);
                &&& forall|j: int|
                    0 <= j < after.entries.len() ==> #[trigger] after.entries[j] == (if low_bits(
                        j,
                        nd,
                    ) == suffix {
                        f
                    } else {
                        before.entries[j] as int
                    })
                &&& after.buckets[b].depth() == nd
                &&& after.buckets[f].depth() == nd
                &&& after.buckets[b].capacity() == before.bucket_cap
                &&& after.buckets[f].capacity() == before.bucket_cap
                &&& after.buckets[b]@ == before.buckets[b]@.remove_keys(routed(nd, suffix))
                &&& after.buckets[f]@ == before.buckets[b]@.restrict(routed(nd, suffix))
            }),
        ensures
            after.wf(),
            after@ == before@,
            forall|slot: int|
                #![trigger after.entries[slot]]
                0 <= slot < after.entries.len() ==> {
                    let b = before.entries[id as int] as int;
                    let d = before.buckets[b].depth();
                    if low_bits(slot, d) == low_bits(id as int, d) {
                        &&& after.buckets[after.entries[slot] as int].depth() == d + 1
                        &&& after.buckets[after.entries[slot] as int]@
                            == before.buckets[b]@.restrict(routed(d + 1, low_bits(slot, d + 1)))
                    } else {
                        after.buckets[after.entries[slot] as int]
                            == before.buckets[before.entries[slot] as int]
                    }
                },
    {
        let b = before.entries[id as int] as int;
        let f = before.buckets.len() as int;
        let d = before.buckets[b].depth();
        let nd = d + 1;
        let gd = before.global_depth as nat;
        let pair = sibling(id, nd);
        let suffix = low_bits(pair as int, nd);
        let own = low_bits(id as int, nd);
        lemma_sibling(id, nd);
        lemma_sibling_in_directory(id, nd, gd);
        lemma_low_bits_range(pair as int, nd);
        // Which slots named the bucket before, and which name which half now.
        assert forall|j: int| 0 <= j < before.entries.len() implies (before.entries[j] == b
            <==> low_bits(j, d) == low_bits(id as int, d)) && (low_bits(j, nd) == suffix
            ==> before.entries[j] == b) && (before.entries[j] == b ==> low_bits(j, nd) == suffix
            || low_bits(j, nd) == own) by {
            assert(before.entries[id as int] == before.entries[j] <==> low_bits(id as int, d)
                == low_bits(j, d));
            if low_bits(j, nd) == suffix {
                lemma_low_bits_coarser(j, pair as int, nd, d);
            }
            if before.entries[j] == b {
                lemma_sibling_covers(id, j, nd);
            }
        }
        assert forall|x: int| 0 <= x < after.buckets.len() implies {
            &&& 1 <= (#[trigger] after.buckets[x]).depth() <= after.global_depth
            &&& after.buckets[x].capacity() == after.bucket_cap
            &&& after.buckets[x].within_capacity()
        } by {
            if x == b || x == f {
                before.buckets[b].lemma_finite();
                assert(after.buckets[x]@.dom().subset_of(before.buckets[b]@.dom()));
                vstd::set_lib::lemma_len_subset(after.buckets[x]@.dom(), before.buckets[b]@.dom());
            } else {
                assert(after.buckets[x] == before.buckets[x]);
            }
        }
        assert forall|i: int, j: int|
            #![trigger after.entries[i], after.entries[j]]
            0 <= i < after.entries.len() && 0 <= j < after.entries.len() implies (after.entries[i]
            == after.entries[j] <==> low_bits(i, after.buckets[after.entries[i] as int].depth())
            == low_bits(j, after.buckets[after.entries[i] as int].depth())) by {
            assert(before.entries[i] < before.buckets.len());
            assert(before.entries[j] < before.buckets.len());
            if after.entries[i] == f {
            } else if after.entries[i] == b {
                if low_bits(j, nd) == own {
                    lemma_low_bits_coarser(j, id as int, nd, d);
                }
            } else {
                let x = before.entries[i] as int;
                assert(after.buckets[x] == before.buckets[x]);
                assert(before.entries[i] == before.entries[j] <==> low_bits(
                    i,
                    before.buckets[x].depth(),
                ) == low_bits(j, before.buckets[x].depth()));
            }
        }
        assert forall|k: K|
            0 <= slot_of(k, gd) < after.entries.len() && low_bits(slot_of(k, gd), nd) == slot_of(
                k,
                nd,
            ) by {
            lemma_low_bits_range(hash_index(k) as int, gd);
            lemma_low_bits_nested(hash_index(k) as int, gd, nd);
        }
        assert forall|x: int, k: K|
            0 <= x < after.buckets.len() && #[trigger] after.buckets[x]@.contains_key(
                k,
            ) implies after.entries[slot_of(k, after.global_depth as nat)] == x by {
            let s = slot_of(k, gd);
            if x == f {
            } else if x == b {
                assert(before.buckets[b]@.contains_key(k));
            } else {
                assert(before.buckets[x]@.contains_key(k));
            }
        }
        assert forall|x: int| 0 <= x < after.buckets.len() implies #[trigger] after.referenced(
            x,
        ) by {
            if x == f {
                lemma_low_bits_small(suffix, nd);
                lemma_pow2_monotone(nd, gd);
                assert(after.entries[suffix] == f);
            } else if x == b {
                lemma_low_bits_range(id as int, nd);
                lemma_low_bits_small(own, nd);
                lemma_low_bits_nested(id as int, nd, d);
                lemma_pow2_monotone(nd, gd);
                assert(before.entries[own] == b);
                assert(after.entries[own] == b);
            } else {
                assert(before.referenced(x));
                let i = choose|i: int|
                    0 <= i < before.entries.len() && #[trigger] before.entries[i] == x;
                assert(after.entries[i] == x);
            }
        }
        assert(after@ =~= before@) by {
            assert forall|k: K|
                (#[trigger] after@.contains_key(k) <==> before@.contains_key(k)) && (
                before@.contains_key(k) ==> after@[k] == before@[k]) by {
                let s = slot_of(k, gd);
                let x = before.entries[s] as int;
                if x != b {
                    assert(after.buckets[x] == before.buckets[x]);
                } else if slot_of(k, nd) == suffix {
                    assert(routed(nd, suffix).contains(k));
                } else {
                    assert(!routed(nd, suffix).contains(k));
                }
            }
        }
    }

    /// Points at `target` every slot whose `depth` low-order bits are
    /// `suffix`, walking the directory in steps of `2^depth`.
    fn redirect(&mut self, depth: usize, suffix: usize, target: usize)
        requires
            depth <= old(self).global_depth <= max_depth(),
            old(self).entries.len() == pow2(old(self).global_depth as nat),
            suffix < pow2(depth as nat),
        ensures
            final(self).buckets == old(self).buckets,
            final(self).global_depth == old(self).global_depth,
            final(self).bucket_cap == old(self).bucket_cap,
            final(self).entries.len() == old(self).entries.len(),
            forall|j: int|
                0 <= j < final(self).entries.len() ==> #[trigger] final(self).entries[j] == (
                if low_bits(j, depth as nat) == suffix {
                    target
                } else {
                    old(self).entries[j]
                }),
    {
        let step = power_of_two(depth);
        let len = self.entries.len();
        proof {
            lemma_pow2_pos(depth as nat);
            lemma_pow2_monotone(depth as nat, self.global_depth as nat);
            assert forall|j: int| 0 <= j < suffix implies low_bits(j, depth as nat) != suffix by {
                lemma_low_bits_small(j, depth as nat);
            }
            lemma_low_bits_small(suffix as int, depth as nat);
        }
        let mut i = suffix;
        while i < len
            invariant
                len == self.entries.len(),
                len == old(self).entries.len(),
                step == pow2(depth as nat),
                step > 0,
                i <= len,
                i < len ==> low_bits(i as int, depth as nat) == suffix,
                forall|j: int|
                    0 <= j < i ==> #[trigger] self.entries[j] == (if low_bits(j, depth as nat)
                        == suffix {
                        target
                    } else {
                        old(self).entries[j]
                    }),
                forall|j: int| i <= j < len ==> #[trigger] self.entries[j] == old(self).entries[j],
                self.global_depth == old(self).global_depth,
                self.bucket_cap == old(self).bucket_cap,
                self.buckets == old(self).buckets,
            decreases len - i,
        {
            self.entries[i] = target;
            let next = if step >= len - i {
                len
            } else {
                i + step
            };
            proof {
                assert forall|j: int| i < j < next implies low_bits(j, depth as nat) != suffix by {
                    if low_bits(j, depth as nat) == suffix {
                        lemma_low_bits_window(i as int, j, depth as nat);
                    }
                }
                if next < len {
                    lemma_low_bits_periodic(i as int, 1, depth as nat);
                }
            }
            i = next;
        }
    }

    /// Splits the bucket that slot `bucket_id` references.
    ///
    /// The bucket's local depth rises by one, the directory doubling first
    /// if it has no bit to spare. A fresh bucket of the same depth takes
    /// over the slots that now differ from `bucket_id` in the new bit, and
    /// with them the entries whose keys route there.
    fn split(&mut self, bucket_id: usize)
        requires
            old(self).wf(),
            bucket_id < old(self).len(),
            old(self).depth_at(bucket_id as int) < max_depth(),
        ensures
            final(self).wf(),
            final(self)@ == old(self)@,
            final(self).capacity() == old(self).capacity(),
            final(self).depth() == if old(self).depth_at(bucket_id as int) == old(self).depth() {
                old(self).depth() + 1
            } else {
                old(self).depth()
            },
            final(self).len() == pow2(final(self).depth()),
            forall|slot: int|
                0 <= slot < final(self).len() ==> 0 <= #[trigger] low_bits(
                    slot,
                    old(self).depth(),
                ) < old(self).len(),
            forall|slot: int|
                #![trigger final(self).depth_at(slot)]
                #![trigger final(self).table_at(slot)]
                0 <= slot < final(self).len() ==> {
                    let depth = old(self).depth_at(bucket_id as int);
                    let origin = low_bits(slot, old(self).depth());
                    if low_bits(slot, depth) == low_bits(bucket_id as int, depth) {
                        &&& final(self).depth_at(slot) == depth + 1
                        &&& final(self).table_at(slot) == old(self).table_at(
                            bucket_id as int,
                        ).restrict(routed(depth + 1, low_bits(slot, depth + 1)))
                    } else {
                        &&& final(self).depth_at(slot) == old(self).depth_at(origin)
                        &&& final(self).table_at(slot) == old(self).table_at(origin)
                    }
                },
    {
        let b = self.entries[bucket_id];
        if self.buckets[b].local_depth() == self.global_depth {
            self.grow();
            proof {
                lemma_low_bits_small(bucket_id as int, old(self).depth());
            }
        }
        let ghost mid = *self;
        let new_depth = self.buckets[b].depth_up();
        let pair_id = self.buckets[b].pair_index(bucket_id);
        let suffix = mask_low(pair_id, new_depth);
        let fresh_handle = self.buckets.len();
        let mut fresh = Bucket::new(self.bucket_cap, new_depth);
        self.buckets[b].move_matching(&mut fresh, new_depth, suffix);
        proof {
            assert(fresh@ =~= mid.buckets[b as int]@.restrict(
                routed(new_depth as nat, suffix as int),
            ));
        }
        self.buckets.push(fresh);
        proof {
            lemma_low_bits_range(pair_id as int, new_depth as nat);
        }
        self.redirect(new_depth, suffix, fresh_handle);
        proof {
            Self::lemma_split(&mid, self, bucket_id);
            let depth = old(self).depth_at(bucket_id as int);
            let gd = old(self).depth();
            lemma_pow2_pos(self.global_depth as nat);
            assert forall|slot: int| 0 <= slot < self.len() implies 0 <= #[trigger] low_bits(
                slot,
                gd,
            ) < old(self).len() && mid.entries[slot] == old(self).entries[low_bits(slot, gd)]
                && low_bits(low_bits(slot, gd), depth) == low_bits(slot, depth) by {
                lemma_low_bits_range(slot, gd);
                lemma_low_bits_nested(slot, gd, depth);
                if mid.global_depth == old(self).global_depth {
                    lemma_low_bits_small(slot, gd);
                }
            }
            assert forall|slot: int|
                #![trigger self.depth_at(slot)]
                #![trigger self.table_at(slot)]
                0 <= slot < self.len() implies ({
                let origin = low_bits(slot, gd);
                if low_bits(slot, depth) == low_bits(bucket_id as int, depth) {
                    &&& self.depth_at(slot) == depth + 1
                    &&& self.table_at(slot) == old(self).table_at(bucket_id as int).restrict(
                        routed(depth + 1, low_bits(slot, depth + 1)),
                    )
                } else {
                    &&& self.depth_at(slot) == old(self).depth_at(origin)
                    &&& self.table_at(slot) == old(self).table_at(origin)
                }
            }) by {
                assert(0 <= low_bits(slot, gd) < old(self).len());
            }
        }
    }

    /// The keys of the index that no directory, however deep, could route
    /// to another slot than `key`: those that agree with it on every hash
    /// bit a slot number can hold.
    pub open spec fn rivals(&self, key: K) -> Set<K> {
        self@.dom().intersect(routed(max_depth(), slot_of(key, max_depth())))
    }

    /// The rivals of a key are among the keys of the bucket it routes to,
    /// and are all of them once that bucket has reached the greatest depth.
    proof fn lemma_rivals(&self, key: K)
        requires
            self.wf(),
        ensures
            0 <= slot_of(key, self.depth()) < self.len(),
            self.rivals(key) == self.table_at(slot_of(key, self.depth())).dom().intersect(
                routed(max_depth(), slot_of(key, max_depth())),
            ),
            self.rivals(key).finite(),
            self.rivals(key).len() <= self.table_at(slot_of(key, self.depth())).len(),
            self.depth_at(slot_of(key, self.depth())) == max_depth() ==> self.rivals(key).len()
                == self.table_at(slot_of(key, self.depth())).len(),
    {
        let gd = self.depth();
        let slot = slot_of(key, gd);
        let b = self.entries[slot] as int;
        let table = self.buckets[b]@;
        let close = routed::<K>(max_depth(), slot_of(key, max_depth()));
        lemma_low_bits_range(hash_index(key) as int, gd);
        assert forall|k: K| 0 <= #[trigger] slot_of(k, gd) < self.entries.len() by {
            lemma_low_bits_range(hash_index(k) as int, gd);
        }
        assert forall|k: K| close.contains(k) implies slot_of(k, gd) == slot by {
            lemma_low_bits_coarser(
                hash_index(k) as int,
                hash_index(key) as int,
                max_depth(),
                gd,
            );
        }
        assert(self.rivals(key) =~= table.dom().intersect(close));
        self.buckets[b].lemma_finite();
        vstd::set_lib::lemma_len_subset(self.rivals(key), table.dom());
        if self.buckets[b].depth() == max_depth() {
            assert forall|k: K| table.contains_key(k) implies close.contains(k) by {
                assert(self.entries[slot_of(k, gd)] == b);
                assert(self.entries[slot_of(k, gd)] == self.entries[slot] <==> low_bits(
                    slot_of(k, gd),
                    max_depth(),
                ) == low_bits(slot, max_depth()));
                lemma_low_bits_small(slot_of(k, gd), gd);
                lemma_low_bits_small(slot, gd);
            }
            assert(self.rivals(key) =~= table.dom());
        }
    }

    /// How one slot of the index, after splits on the way of `key`, stands
    /// to the index `before` them.
    ///
    /// A slot that did not reference the bucket of the key is as it was.
    /// One that did references a bucket no shallower than before and no
    /// deeper than the bucket the key routes to now: it agrees with the key
    /// on every bit below the last of its local depth, and, unless it is as
    /// deep as the key's bucket, not on that last; and it holds the part of
    /// what the key's bucket held that belongs to it.
    pub open spec fn parted_at(&self, before: &Self, key: K, slot: int) -> bool {
        let word = hash_index(key) as int;
        let home = slot_of(key, before.depth());
        let start = before.depth_at(home);
        let reach = self.depth_at(slot_of(key, self.depth()));
        let origin = low_bits(slot, before.depth());
        let here = self.depth_at(slot);
        if low_bits(slot, start) == low_bits(word, start) {
            &&& start <= here <= reach
            &&& here > start ==> low_bits(slot, (here - 1) as nat) == low_bits(
                word,
                (here - 1) as nat,
            )
            &&& here < reach ==> low_bits(slot, here) != low_bits(word, here)
            &&& self.table_at(slot) == piece(before.table_at(home), here, slot)
        } else {
            &&& here == before.depth_at(origin)
            &&& self.table_at(slot) == before.table_at(origin)
        }
    }

    /// How the index, after splits on the way of `key`, stands to the
    /// index `before` them: the bucket of the key was full at every depth
    /// at which it has been split; the directory has grown as far as the
    /// deepest split asked for, and no further; and every slot is as
    /// `parted_at` says.
    pub open spec fn parted(&self, before: &Self, key: K) -> bool {
        let word = hash_index(key) as int;
        let home = slot_of(key, before.depth());
        let start = before.depth_at(home);
        let reach = self.depth_at(slot_of(key, self.depth()));
        &&& start <= reach
        &&& self.depth() == if reach > before.depth() {
            reach
        } else {
            before.depth()
        }
        &&& self.len() == pow2(self.depth())
        &&& forall|depth: nat|
            start <= depth < reach ==> (#[trigger] piece(before.table_at(home), depth, word)).len()
                >= before.capacity()
        &&& forall|slot: int| 0 <= slot < self.len() ==> #[trigger] self.parted_at(before, key, slot)
    }

    /// An index stands to itself as `parted` says.
    proof fn lemma_parted_start(&self, key: K)
        requires
            self.wf(),
        ensures
            self.parted(self, key),
    {
        let word = hash_index(key) as int;
        let gd = self.depth();
        let home = slot_of(key, gd);
        let start = self.depth_at(home);
        lemma_low_bits_range(word, gd);
        self.lemma_depth_invariant(home);
        lemma_low_bits_nested(word, gd, start);
        assert forall|slot: int| 0 <= slot < self.len() implies #[trigger] self.parted_at(
            self,
            key,
            slot,
        ) by {
            lemma_low_bits_small(slot, gd);
            if low_bits(slot, start) == low_bits(word, start) {
                assert(self.handle(slot) == self.handle(home));
                assert(self.table_at(slot) =~= piece(self.table_at(home), start, slot));
            }
        }
    }

    /// A split of the key's bucket keeps what `parted` says.
    proof fn lemma_parted_step(before: &Self, cur: &Self, next: &Self, key: K)
        requires
            before.wf(),
            cur.wf(),
            next.wf(),
            cur.parted(before, key),
            cur.depth() >= before.depth(),
            cur.table_at(slot_of(key, cur.depth())).len() >= before.capacity(),
            next.depth() == if cur.depth_at(slot_of(key, cur.depth())) == cur.depth() {
                cur.depth() + 1
            } else {
                cur.depth()
            },
            next.len() == pow2(next.depth()),
            forall|slot: int|
                0 <= slot < next.len() ==> 0 <= #[trigger] low_bits(slot, cur.depth()) < cur.len(),
            forall|slot: int|
                #![trigger next.depth_at(slot)]
                #![trigger next.table_at(slot)]
                0 <= slot < next.len() ==> {
                    let at = slot_of(key, cur.depth());
                    let depth = cur.depth_at(at);
                    let origin = low_bits(slot, cur.depth());
                    if low_bits(slot, depth) == low_bits(at, depth) {
                        &&& next.depth_at(slot) == depth + 1
                        &&& next.table_at(slot) == cur.table_at(at).restrict(
                            routed(depth + 1, low_bits(slot, depth + 1)),
                        )
                    } else {
                        &&& next.depth_at(slot) == cur.depth_at(origin)
                        &&& next.table_at(slot) == cur.table_at(origin)
                    }
                },
        ensures
            next.parted(before, key),
            next.depth_at(slot_of(key, next.depth())) == cur.depth_at(slot_of(key, cur.depth()))
                + 1,
    {
        let word = hash_index(key) as int;
        let gd0 = before.depth();
        let gd = cur.depth();
        let home = slot_of(key, gd0);
        let start = before.depth_at(home);
        let table = before.table_at(home);
        let at = slot_of(key, gd);
        let depth = cur.depth_at(at);
        let landing = slot_of(key, next.depth());
        lemma_low_bits_range(word, gd0);
        lemma_low_bits_range(word, gd);
        lemma_low_bits_range(word, next.depth());
        cur.lemma_depth_invariant(at);
        before.lemma_depth_invariant(home);
        lemma_low_bits_nested(word, gd, depth);
        lemma_low_bits_nested(word, next.depth(), depth);
        lemma_low_bits_nested(word, gd, start);
        assert(next.depth_at(landing) == depth + 1);
        assert(cur.parted_at(before, key, at));
        assert(cur.table_at(at) =~= piece(table, depth, word));
        assert forall|d: nat| start <= d < depth + 1 implies (#[trigger] piece(
            table,
            d,
            word,
        )).len() >= before.capacity() by {}
        assert forall|slot: int| 0 <= slot < next.len() implies #[trigger] next.parted_at(
            before,
            key,
            slot,
        ) by {
            let origin = low_bits(slot, gd);
            lemma_low_bits_nested(slot, gd, gd0);
            lemma_low_bits_nested(slot, gd, start);
            lemma_low_bits_nested(slot, gd, depth);
            assert(cur.parted_at(before, key, origin));
            if low_bits(slot, depth) == low_bits(at, depth) {
                lemma_low_bits_coarser(slot, word, depth, start);
                assert forall|k: K|
                    table.contains_key(k) && slot_of(k, depth + 1) == low_bits(
                        slot,
                        depth + 1,
                    ) implies slot_of(k, depth) == low_bits(word, depth) by {
                    lemma_low_bits_coarser(hash_index(k) as int, slot, depth + 1, depth);
                }
                assert(next.table_at(slot) =~= piece(table, depth + 1, slot));
            } else if low_bits(slot, start) == low_bits(word, start) {
                let here = cur.depth_at(origin);
                lemma_low_bits_nested(slot, gd, here);
                if here > start {
                    lemma_low_bits_nested(slot, gd, (here - 1) as nat);
                }
                assert(next.table_at(slot) =~= piece(table, here, slot));
            }
        }
    }

    /// Stores `value` under `key` unless the key is present already, and
    /// says whether it did.
    ///
    /// A full bucket in the key's way is split, again and again if need
    /// be, until the key's bucket has room: it ends up at the least depth
    /// at which fewer of its entries than a bucket's capacity agree with
    /// the key. The precondition leaves out the one case in which that
    /// cannot end: a bucket's worth of rivals. `try_insert` tests for it.
    pub fn insert(&mut self, key: K, value: V) -> (inserted: bool)
        requires
            old(self).wf(),
            old(self)@.contains_key(key) || old(self).rivals(key).len() < old(self).capacity(),
        ensures
            final(self).wf(),
            inserted == accepts(old(self)@, key),
            final(self)@ == stored(old(self)@, key, value),
            !inserted ==> *final(self) == *old(self),
            final(self).capacity() == old(self).capacity(),
            0 <= slot_of(key, old(self).depth()) < old(self).len(),
            0 <= slot_of(key, final(self).depth()) < final(self).len(),
            inserted ==> final(self).settled(old(self), key, value),
    {
        let first = self.hash(&key);
        if self.buckets[self.entries[first]].contains_key(&key) {
            return false;
        }
        proof {
            self.lemma_parted_start(key);
        }
        loop
            invariant
                old(self).wf(),
                self.wf(),
                self@ == old(self)@,
                !self@.contains_key(key),
                self.capacity() == old(self).capacity(),
                self.rivals(key).len() < self.capacity(),
                self.depth() >= old(self).depth(),
                0 <= slot_of(key, old(self).depth()) < old(self).len(),
                self.parted(old(self), key),
            decreases max_depth() - self.depth_at(slot_of(key, self.depth())),
        {
            let slot = self.hash(&key);
            let b = self.entries[slot];
            let ghost before = *self;
            if !self.buckets[b].is_full() {
                self.buckets[b].insert(key, value);
                proof {
                    assert(self.buckets[b as int]@.dom() =~= before.buckets[b as int]@.dom().insert(
                        key,
                    ));
                    before.buckets[b as int].lemma_finite();
                    Self::lemma_table_changed(&before, self, b as int);
                    Self::lemma_view_after_table_change(&before, self, b as int, key);
                    Self::lemma_settled(old(self), &before, self, key, value);
                }
                return true;
            }
            proof {
                before.lemma_rivals(key);
            }
            self.split(slot);
            proof {
                Self::lemma_parted_step(old(self), &before, self, key);
            }
        }
    }

    /// How the index stands, after `value` has been stored under the new
    /// key `key`, to the index `before`.
    ///
    /// The bucket of the key has been split down to the least depth at
    /// which fewer of its entries than a bucket's capacity agree with the
    /// key, and the directory has grown as far as that asks for and no
    /// further. A slot that did not reference that bucket is as it was.
    /// One that did references a bucket that agrees with the key below the
    /// last bit of its local depth, and, unless it is as deep as the key's
    /// bucket, not on that last; and it holds the part of what the key's
    /// bucket held, with the new entry, that belongs to it.
    pub open spec fn settled(&self, before: &Self, key: K, value: V) -> bool {
        let word = hash_index(key) as int;
        let home = slot_of(key, before.depth());
        let start = before.depth_at(home);
        let table = before.table_at(home);
        let reach = self.depth_at(slot_of(key, self.depth()));
        &&& start <= reach
        &&& self.depth() == if reach > before.depth() {
            reach
        } else {
            before.depth()
        }
        &&& self.len() == pow2(self.depth())
        &&& piece(table, reach, word).len() < before.capacity()
        &&& forall|depth: nat|
            start <= depth < reach ==> (#[trigger] piece(table, depth, word)).len()
                >= before.capacity()
        &&& forall|slot: int|
            #![trigger self.depth_at(slot)]
            #![trigger self.table_at(slot)]
            0 <= slot < self.len() ==> {
                let origin = low_bits(slot, before.depth());
                let here = self.depth_at(slot);
                if low_bits(slot, start) == low_bits(word, start) {
                    &&& start <= here <= reach
                    &&& here > start ==> low_bits(slot, (here - 1) as nat) == low_bits(
                        word,
                        (here - 1) as nat,
                    )
                    &&& here < reach ==> low_bits(slot, here) != low_bits(word, here)
                    &&& self.table_at(slot) == piece(stored(table, key, value), here, slot)
                } else {
                    &&& 0 <= origin < before.len()
                    &&& here == before.depth_at(origin)
                    &&& self.table_at(slot) == before.table_at(origin)
                }
            }
    }

    /// Storing the entry in the key's bucket, once it has room, settles
    /// the index.
    proof fn lemma_settled(before: &Self, cur: &Self, after: &Self, key: K, value: V)
        requires
            before.wf(),
            cur.wf(),
            after.wf(),
            cur.parted(before, key),
            cur.depth() >= before.depth(),
            !before@.contains_key(key),
            cur@ == before@,
            after.same_directory(cur),
            cur.table_at(slot_of(key, cur.depth())).len() < before.capacity(),
            after.entries == cur.entries,
            after.buckets.len() == cur.buckets.len(),
            forall|x: int|
                0 <= x < cur.buckets.len() && x != cur.entries[slot_of(key, cur.depth())]
                    ==> #[trigger] after.buckets[x] == cur.buckets[x],
            after.table_at(slot_of(key, cur.depth())) == cur.table_at(
                slot_of(key, cur.depth()),
            ).insert(key, value),
        ensures
            after.settled(before, key, value),
    {
        let word = hash_index(key) as int;
        let gd0 = before.depth();
        let gd = cur.depth();
        let home = slot_of(key, gd0);
        let start = before.depth_at(home);
        let table = before.table_at(home);
        let at = slot_of(key, gd);
        let reach = cur.depth_at(at);
        lemma_low_bits_range(word, gd0);
        lemma_low_bits_range(word, gd);
        cur.lemma_depth_invariant(at);
        lemma_low_bits_nested(word, gd, reach);
        lemma_low_bits_nested(word, gd, start);
        assert(cur.parted_at(before, key, at));
        assert(cur.table_at(at) =~= piece(table, reach, word));
        assert(!table.contains_key(key)) by {
            if table.contains_key(key) {
                assert(before@.contains_key(key));
            }
        }
        assert(after.depth_at(at) == cur.depth_at(at)) by {
            assert(after.handle(at) == cur.handle(at));
        }
        assert forall|slot: int|
            #![trigger after.depth_at(slot)]
            #![trigger after.table_at(slot)]
            0 <= slot < after.len() implies ({
            let origin = low_bits(slot, gd0);
            let here = after.depth_at(slot);
            if low_bits(slot, start) == low_bits(word, start) {
                &&& start <= here <= reach
                &&& here > start ==> low_bits(slot, (here - 1) as nat) == low_bits(
                    word,
                    (here - 1) as nat,
                )
                &&& here < reach ==> low_bits(slot, here) != low_bits(word, here)
                &&& after.table_at(slot) == piece(stored(table, key, value), here, slot)
            } else {
                &&& 0 <= origin < before.len()
                &&& here == before.depth_at(origin)
                &&& after.table_at(slot) == before.table_at(origin)
            }
        }) by {
            assert(cur.parted_at(before, key, slot));
            assert(after.handle(slot) == cur.handle(slot));
            assert(after.depth_at(slot) == cur.depth_at(slot));
            lemma_low_bits_range(slot, gd0);
            let here = cur.depth_at(slot);
            let shares = cur.entries[slot] == cur.entries[at];
            if shares {
                assert(low_bits(slot, reach) == low_bits(at, reach));
                lemma_low_bits_coarser(slot, word, reach, start);
                assert(after.table_at(slot) == cur.table_at(at).insert(key, value));
                assert(after.table_at(slot) =~= piece(stored(table, key, value), here, slot));
            } else {
                assert(after.buckets[cur.entries[slot] as int] == cur.buckets[cur.entries[slot] as int]);
                assert(after.table_at(slot) == cur.table_at(slot));
                if low_bits(slot, start) == low_bits(word, start) {
                    assert(low_bits(slot, here) != low_bits(word, here)) by {
                        if here == reach {
                            assert(low_bits(slot, reach) != low_bits(at, reach));
                        }
                    }
                    assert(cur.table_at(slot) =~= piece(stored(table, key, value), here, slot));
                }
            }
        }
    }

    /// Stores `value` under `key` unless the key is present already, or
    /// reports that the key's bucket is full of its rivals, in which case
    /// nothing has changed.
    pub fn try_insert(&mut self, key: K, value: V) -> (outcome: Result<bool, InsertError>)
        requires
            old(self).wf(),
        ensures
            final(self).wf(),
            outcome is Err <==> !old(self)@.contains_key(key) && old(self).rivals(key).len() >= old(
                self,
            ).capacity(),
            match outcome {
                Ok(inserted) => {
                    &&& inserted == accepts(old(self)@, key)
                    &&& final(self)@ == stored(old(self)@, key, value)
                    &&& !inserted ==> *final(self) == *old(self)
                },
                Err(_) => *final(self) == *old(self),
            },
            final(self).capacity() == old(self).capacity(),
            final(self).depth() >= old(self).depth(),
            outcome == Ok::<bool, InsertError>(true) ==> final(self).settled(old(self), key, value),
    {
        let slot = self.hash(&key);
        let b = self.entries[slot];
        if self.buckets[b].contains_key(&key) {
            return Ok(false);
        }
        let limit = depth_limit();
        let suffix = mask_low(hash_word(&key), limit);
        let rivals = self.buckets[b].count_routed(limit, suffix);
        proof {
            self.lemma_rivals(key);
        }
        if rivals >= self.bucket_cap {
            return Err(InsertError::DepthExhausted);
        }
        Ok(self.insert(key, value))
    }

    /// The global depth.
    pub fn global_depth(&self) -> (depth: usize)
        ensures
            depth == self.depth(),
    {
        self.global_depth
    }

    /// The number of slots.
    pub fn directory_len(&self) -> (len: usize)
        ensures
            len == self.len(),
    {
        self.entries.len()
    }

    /// The capacity every bucket is made with.
    pub fn bucket_cap(&self) -> (cap: usize)
        ensures
            cap == self.capacity(),
    {
        self.bucket_cap
    }

    /// The slot that `key` routes to.
    pub fn slot_for(&self, key: &K) -> (slot: usize)
        requires
            self.wf(),
        ensures
            slot == slot_of(*key, self.depth()),
            slot < self.len(),
    {
        self.hash(key)
    }

    /// The bucket that `slot` references.
    pub fn bucket(&self, slot: usize) -> (bucket: &Bucket<K, V>)
        requires
            self.wf(),
            slot < self.len(),
        ensures
            bucket@ == self.table_at(slot as int),
            bucket.depth() == self.depth_at(slot as int),
            bucket.capacity() == self.capacity(),
    {
        &self.buckets[self.entries[slot]]
    }

    /// Whether two slots reference the same bucket.
    pub fn same_bucket(&self, first: usize, second: usize) -> (same: bool)
        requires
            first < self.len(),
            second < self.len(),
        ensures
            same == (self.handle(first as int) == self.handle(second as int)),
    {
        self.entries[first] == self.entries[second]
    }

    /// Whether the bucket of `slot` and the bucket of its sibling slot are
    /// the two halves of one split: of the same local depth, above one.
    pub open spec fn paired(&self, slot: int) -> bool {
        let depth = self.depth_at(slot);
        depth > 1 && self.depth_at(sibling(slot as usize, depth) as int) == depth
    }

    /// Whether `slot` is one of the slots that a fold of the bucket of
    /// `id` into its sibling hands to the sibling, or one of the sibling's
    /// own: it agrees with `id` below the bucket's highest bit.
    pub open spec fn folded(&self, id: int, slot: int) -> bool {
        let below = (self.depth_at(id) - 1) as nat;
        low_bits(slot, below) == low_bits(id, below)
    }

    /// The local depth at `slot` once the bucket of `id` has been folded
    /// into its sibling, if `folds` says that it is.
    pub open spec fn depth_after_fold(&self, folds: bool, id: int, slot: int) -> nat {
        if folds && self.folded(id, slot) {
            (self.depth_at(id) - 1) as nat
        } else {
            self.depth_at(slot)
        }
    }

    /// The contents at `slot` once the bucket of `id` has been folded into
    /// its sibling, if `folds` says that it is.
    pub open spec fn table_after_fold(&self, folds: bool, id: int, slot: int) -> Map<K, V> {
        if folds && self.folded(id, slot) {
            self.table_at(sibling(id as usize, self.depth_at(id)) as int)
        } else {
            self.table_at(slot)
        }
    }

    /// Whether, once the bucket of `id` has been folded if `folds` says
    /// so, no bucket needs the directory's full width.
    pub open spec fn halves_after_fold(&self, folds: bool, id: int) -> bool {
        forall|slot: int|
            0 <= slot < self.len() ==> #[trigger] self.depth_after_fold(folds, id, slot)
                < self.depth()
    }

    /// Handing the slots of the empty bucket of `id` to its sibling, and
    /// lowering the sibling's depth, leaves an index that routes well and
    /// is the same map; only the empty bucket is left without a slot.
    proof fn lemma_folded(before: &Self, mid: &Self, id: usize)
        requires
            before.wf(),
            id < before.entries.len(),
            before.table_at(id as int).is_empty(),
            before.paired(id as int),
            mid.global_depth == before.global_depth,
            mid.bucket_cap == before.bucket_cap,
            mid.entries.len() == before.entries.len(),
            mid.buckets.len() == before.buckets.len(),
            ({
                let d = before.depth_at(id as int);
                let p = before.entries[sibling(id, d) as int] as int;
                &&& forall|j: int|
                    0 <= j < mid.entries.len() ==> #[trigger] mid.entries[j] == (if low_bits(j, d)
                        == low_bits(id as int, d) {
                        p
                    } else {
                        before.entries[j] as int
                    })
                &&& forall|x: int|
                    0 <= x < before.buckets.len() && x != p ==> #[trigger] mid.buckets[x]
                        == before.buckets[x]
                &&& mid.buckets[p].depth() == d - 1
                &&& mid.buckets[p].capacity() == before.buckets[p].capacity()
                &&& mid.buckets[p]@ == before.buckets[p]@
            }),
        ensures
            mid.routes_well(),
            mid@ == before@,
            !mid.referenced(before.entries[id as int] as int),
            forall|x: int|
                0 <= x < mid.buckets.len() && x != before.entries[id as int]
                    ==> #[trigger] mid.referenced(x),
            forall|slot: int|
                0 <= slot < mid.entries.len() ==> mid.buckets[(#[trigger] mid.entries[slot]) as int].depth()
                    == before.depth_after_fold(true, id as int, slot)
                    && mid.buckets[mid.entries[slot] as int]@ == before.table_after_fold(
                    true,
                    id as int,
                    slot,
                ),
    {
        let gd = before.global_depth as nat;
        let b = before.entries[id as int] as int;
        let d = before.depth_at(id as int);
        let below = (d - 1) as nat;
        let pair = sibling(id, d);
        lemma_sibling(id, d);
        lemma_sibling_in_directory(id, d, gd);
        let p = before.entries[pair as int] as int;
        assert(before.entries[id as int] == before.entries[pair as int] <==> low_bits(
            id as int,
            d,
        ) == low_bits(pair as int, d));
        assert(p != b);
        // Which slots named which of the two buckets before.
        assert forall|j: int| 0 <= j < before.entries.len() implies (before.entries[j] == b
            <==> low_bits(j, d) == low_bits(id as int, d)) && (before.entries[j] == p
            <==> low_bits(j, d) == low_bits(pair as int, d)) && (low_bits(j, below) == low_bits(
            id as int,
            below,
        ) <==> before.entries[j] == b || before.entries[j] == p) by {
            assert(before.entries[id as int] == before.entries[j] <==> low_bits(id as int, d)
                == low_bits(j, d));
            assert(before.entries[pair as int] == before.entries[j] <==> low_bits(pair as int, d)
                == low_bits(j, d));
            if low_bits(j, below) == low_bits(id as int, below) {
                lemma_sibling_covers(id, j, d);
            }
            if low_bits(j, d) == low_bits(id as int, d) {
                lemma_low_bits_coarser(j, id as int, d, below);
            }
            if low_bits(j, d) == low_bits(pair as int, d) {
                lemma_low_bits_coarser(j, pair as int, d, below);
            }
        }
        assert forall|x: int| 0 <= x < mid.buckets.len() implies {
            &&& 1 <= (#[trigger] mid.buckets[x]).depth() <= mid.global_depth
            &&& mid.buckets[x].capacity() == mid.bucket_cap
            &&& mid.buckets[x].within_capacity()
        } by {
            if x != p {
                assert(mid.buckets[x] == before.buckets[x]);
            }
        }
        assert forall|i: int, j: int|
            #![trigger mid.entries[i], mid.entries[j]]
            0 <= i < mid.entries.len() && 0 <= j < mid.entries.len() implies (mid.entries[i]
            == mid.entries[j] <==> low_bits(i, mid.buckets[mid.entries[i] as int].depth())
            == low_bits(j, mid.buckets[mid.entries[i] as int].depth())) by {
            assert(before.entries[i] < before.buckets.len());
            assert(before.entries[j] < before.buckets.len());
            if mid.entries[i] == p {
            } else {
                let x = before.entries[i] as int;
                assert(mid.buckets[x] == before.buckets[x]);
                assert(before.entries[i] == before.entries[j] <==> low_bits(
                    i,
                    before.buckets[x].depth(),
                ) == low_bits(j, before.buckets[x].depth()));
            }
        }
        assert forall|k: K| 0 <= #[trigger] slot_of(k, gd) < mid.entries.len() by {
            lemma_low_bits_range(hash_index(k) as int, gd);
        }
        assert forall|x: int, k: K|
            0 <= x < mid.buckets.len() && #[trigger] mid.buckets[x]@.contains_key(
                k,
            ) implies mid.entries[slot_of(k, mid.global_depth as nat)] == x by {
            if x != p {
                assert(before.buckets[x]@.contains_key(k));
            } else {
                assert(before.buckets[p]@.contains_key(k));
            }
            assert(!before.buckets[b]@.contains_key(k));
        }
        assert(!mid.referenced(b));
        assert forall|x: int| 0 <= x < mid.buckets.len() && x != b implies #[trigger] mid.referenced(
            x,
        ) by {
            assert(before.referenced(x));
            let i = choose|i: int|
                0 <= i < before.entries.len() && #[trigger] before.entries[i] == x;
            assert(mid.entries[i] == x);
        }
        assert(mid@ =~= before@) by {
            assert forall|k: K|
                (#[trigger] mid@.contains_key(k) <==> before@.contains_key(k)) && (
                before@.contains_key(k) ==> mid@[k] == before@[k]) by {
                let s = slot_of(k, gd);
                let x = before.entries[s] as int;
                if x == b {
                    assert(!before.buckets[b]@.contains_key(k));
                    assert(!before.buckets[p]@.contains_key(k));
                } else if x != p {
                    assert(mid.buckets[x] == before.buckets[x]);
                }
            }
        }
        assert forall|slot: int| 0 <= slot < mid.entries.len() implies mid.buckets[(
        #[trigger] mid.entries[slot]) as int].depth() == before.depth_after_fold(
            true,
            id as int,
            slot,
        ) && mid.buckets[mid.entries[slot] as int]@ == before.table_after_fold(
            true,
            id as int,
            slot,
        ) by {
            let x = before.entries[slot] as int;
            assert(before.entries[slot] < before.buckets.len());
            if x != p && x != b {
                assert(mid.buckets[x] == before.buckets[x]);
            }
        }
    }

    /// Taking a bucket that no slot names out of the arena, by moving the
    /// last bucket into its place and renumbering that bucket's slots,
    /// gives a well formed index with the same bucket behind every slot.
    proof fn lemma_reclaimed(mid: &Self, after: &Self, b: int)
        requires
            mid.routes_well(),
            0 <= b < mid.buckets.len(),
            !mid.referenced(b),
            forall|x: int| 0 <= x < mid.buckets.len() && x != b ==> #[trigger] mid.referenced(x),
            after.global_depth == mid.global_depth,
            after.bucket_cap == mid.bucket_cap,
            after.buckets@ == mid.buckets@.update(b, mid.buckets@.last()).drop_last(),
            after.entries.len() == mid.entries.len(),
            forall|j: int|
                0 <= j < mid.entries.len() ==> #[trigger] after.entries[j] == (if mid.entries[j]
                    == mid.buckets.len() - 1 {
                    b
                } else {
                    mid.entries[j] as int
                }),
        ensures
            after.wf(),
            after@ == mid@,
            forall|slot: int|
                0 <= slot < after.entries.len() ==> after.buckets[(
                #[trigger] after.entries[slot]) as int] == mid.buckets[mid.entries[slot] as int],
    {
        let last = mid.buckets.len() - 1;
        let gd = mid.global_depth as nat;
        assert forall|slot: int| 0 <= slot < after.entries.len() implies after.entries[slot]
            < after.buckets.len() && after.buckets[(#[trigger] after.entries[slot]) as int]
            == mid.buckets[mid.entries[slot] as int] by {
            assert(mid.entries[slot] < mid.buckets.len());
            assert(mid.entries[slot] != b) by {
                if mid.entries[slot] == b {
                    assert(mid.referenced(b));
                }
            }
        }
        assert forall|x: int| 0 <= x < after.buckets.len() implies (#[trigger] after.buckets[x])
            == mid.buckets[if x == b {
            last
        } else {
            x
        }] by {}
        assert forall|i: int, j: int|
            #![trigger after.entries[i], after.entries[j]]
            0 <= i < after.entries.len() && 0 <= j < after.entries.len() implies (after.entries[i]
            == after.entries[j] <==> low_bits(i, after.buckets[after.entries[i] as int].depth())
            == low_bits(j, after.buckets[after.entries[i] as int].depth())) by {
            assert(mid.entries[i] == mid.entries[j] <==> low_bits(
                i,
                mid.buckets[mid.entries[i] as int].depth(),
            ) == low_bits(j, mid.buckets[mid.entries[i] as int].depth()));
            assert(after.buckets[after.entries[i] as int] == mid.buckets[mid.entries[i] as int]);
            assert(mid.entries[i] != b && mid.entries[j] != b) by {
                if mid.entries[i] == b || mid.entries[j] == b {
                    assert(mid.referenced(b));
                }
            }
        }
        assert forall|k: K| 0 <= #[trigger] slot_of(k, gd) < mid.entries.len() by {
            lemma_low_bits_range(hash_index(k) as int, gd);
        }
        assert forall|x: int, k: K|
            0 <= x < after.buckets.len() && #[trigger] after.buckets[x]@.contains_key(
                k,
            ) implies after.entries[slot_of(k, after.global_depth as nat)] == x by {
            let from = if x == b {
                last
            } else {
                x
            };
            assert(mid.buckets[from]@.contains_key(k));
        }
        assert forall|x: int| 0 <= x < after.buckets.len() implies #[trigger] after.referenced(
            x,
        ) by {
            let from = if x == b {
                last
            } else {
                x
            };
            assert(mid.referenced(from));
            let i = choose|i: int| 0 <= i < mid.entries.len() && #[trigger] mid.entries[i] == from;
            assert(after.entries[i] == x);
        }
        assert(after@ =~= mid@) by {
            assert forall|k: K|
                (#[trigger] after@.contains_key(k) <==> mid@.contains_key(k)) && (mid@.contains_key(
                    k,
                ) ==> after@[k] == mid@[k]) by {
                let s = slot_of(k, gd);
                assert(after.buckets[after.entries[s] as int] == mid.buckets[mid.entries[s] as int]);
            }
        }
    }

    /// Folds the bucket of slot `bucket_id` into its sibling, if it is
    /// empty and the two are paired: every slot of the empty bucket is
    /// handed to the sibling, whose local depth falls by one, and the empty
    /// bucket leaves the arena. Otherwise nothing changes. The global
    /// depth stays as it is either way.
    fn merge(&mut self, bucket_id: usize)
        requires
            old(self).wf(),
            bucket_id < old(self).len(),
        ensures
            final(self).wf(),
            final(self)@ == old(self)@,
            final(self).depth() == old(self).depth(),
            final(self).len() == old(self).len(),
            final(self).capacity() == old(self).capacity(),
            ({
                let folds = old(self).table_at(bucket_id as int).is_empty() && old(self).paired(
                    bucket_id as int,
                );
                &&& !folds ==> *final(self) == *old(self)
                &&& forall|slot: int|
                    #![trigger final(self).depth_at(slot)]
                    #![trigger final(self).table_at(slot)]
                    0 <= slot < final(self).len() ==> final(self).depth_at(slot) == old(
                        self,
                    ).depth_after_fold(folds, bucket_id as int, slot) && final(self).table_at(slot)
                        == old(self).table_after_fold(folds, bucket_id as int, slot)
            }),
    {
        let b = self.entries[bucket_id];
        if !self.buckets[b].is_empty() || self.buckets[b].local_depth() <= 1 {
            return;
        }
        let current_depth = self.buckets[b].local_depth();
        let pair_bucket_id = self.buckets[b].pair_index(bucket_id);
        proof {
            lemma_sibling_in_directory(bucket_id, current_depth as nat, self.global_depth as nat);
        }
        let pair = self.entries[pair_bucket_id];
        if self.buckets[pair].local_depth() != current_depth {
            return;
        }
        let suffix = mask_low(bucket_id, current_depth);
        proof {
            lemma_low_bits_range(bucket_id as int, current_depth as nat);
        }
        self.redirect(current_depth, suffix, pair);
        self.buckets[pair].depth_down();
        let ghost mid = *self;
        proof {
            Self::lemma_folded(old(self), &mid, bucket_id);
        }
        let last = self.buckets.len() - 1;
        self.buckets.swap_remove(b);
        if b != last {
            let len = self.entries.len();
            for i in 0..len
                invariant
                    len == self.entries.len(),
                    len == mid.entries.len(),
                    last == mid.buckets.len() - 1,
                    self.global_depth == mid.global_depth,
                    self.bucket_cap == mid.bucket_cap,
                    self.buckets@ == mid.buckets@.update(b as int, mid.buckets@.last()).drop_last(),
                    forall|j: int|
                        0 <= j < i ==> #[trigger] self.entries[j] == (if mid.entries[j] == last {
                            b
                        } else {
                            mid.entries[j]
                        }),
                    forall|j: int| i <= j < len ==> #[trigger] self.entries[j] == mid.entries[j],
            {
                if self.entries[i] == last {
                    self.entries[i] = b;
                }
            }
        }
        proof {
            Self::lemma_reclaimed(&mid, self, b as int);
        }
    }

    /// Where no bucket needs the full width, a slot shares its bucket with
    /// the slot of the first half that has its low-order bits.
    proof fn lemma_half_slot(&self, s: int)
        requires
            self.wf(),
            forall|slot: int|
                0 <= slot < self.entries.len() ==> self.buckets[(
                #[trigger] self.entries[slot]) as int].depth() < self.global_depth,
            0 <= s < self.entries.len(),
        ensures
            0 <= low_bits(s, (self.global_depth - 1) as nat) < pow2(
                (self.global_depth - 1) as nat,
            ),
            2 * pow2((self.global_depth - 1) as nat) == self.entries.len(),
            self.entries[s] == self.entries[low_bits(s, (self.global_depth - 1) as nat)],
    {
        let gd = self.global_depth as nat;
        let less = (gd - 1) as nat;
        vstd::arithmetic::power2::lemma_pow2_unfold(gd);
        let t = low_bits(s, less);
        lemma_low_bits_range(s, less);
        let d = self.buckets[self.entries[s] as int].depth();
        assert(self.entries[s] == self.entries[t] <==> low_bits(s, d) == low_bits(t, d));
        lemma_low_bits_nested(s, less, d);
    }

    /// A directory in which no bucket needs the full width is well formed,
    /// and the same map, without its second half and at one bit less.
    proof fn lemma_halved(before: &Self, after: &Self)
        requires
            before.wf(),
            forall|slot: int|
                0 <= slot < before.entries.len() ==> before.buckets[(
                #[trigger] before.entries[slot]) as int].depth() < before.global_depth,
            after.global_depth == before.global_depth - 1,
            after.bucket_cap == before.bucket_cap,
            after.buckets == before.buckets,
            after.entries@ == before.entries@.subrange(
                0,
                pow2((before.global_depth - 1) as nat) as int,
            ),
        ensures
            after.wf(),
            after@ == before@,
    {
        let gd = before.global_depth as nat;
        let less = (gd - 1) as nat;
        lemma_pow2_pos(gd);
        before.lemma_half_slot(0);
        assert forall|x: int| 0 <= x < after.buckets.len() implies {
            &&& 1 <= (#[trigger] after.buckets[x]).depth() <= after.global_depth
            &&& after.buckets[x].capacity() == after.bucket_cap
            &&& after.buckets[x].within_capacity()
        } by {
            assert(before.referenced(x));
            let i = choose|i: int|
                0 <= i < before.entries.len() && #[trigger] before.entries[i] == x;
        }
        assert forall|i: int, j: int|
            #![trigger after.entries[i], after.entries[j]]
            0 <= i < after.entries.len() && 0 <= j < after.entries.len() implies (after.entries[i]
            == after.entries[j] <==> low_bits(i, after.buckets[after.entries[i] as int].depth())
            == low_bits(j, after.buckets[after.entries[i] as int].depth())) by {
            assert(before.entries[i] == before.entries[j] <==> low_bits(
                i,
                before.buckets[before.entries[i] as int].depth(),
            ) == low_bits(j, before.buckets[before.entries[i] as int].depth()));
        }
        assert forall|k: K|
            0 <= #[trigger] slot_of(k, less) < after.entries.len() && after.entries[slot_of(
                k,
                less,
            )] == before.entries[slot_of(k, gd)] by {
            lemma_low_bits_range(hash_index(k) as int, gd);
            lemma_low_bits_nested(hash_index(k) as int, gd, less);
            before.lemma_half_slot(slot_of(k, gd));
        }
        assert forall|x: int, k: K|
            0 <= x < after.buckets.len() && #[trigger] after.buckets[x]@.contains_key(
                k,
            ) implies after.entries[slot_of(k, after.global_depth as nat)] == x by {
            assert(before.buckets[x]@.contains_key(k));
            assert(0 <= slot_of(k, less) < after.entries.len());
        }
        assert forall|x: int| 0 <= x < after.buckets.len() implies #[trigger] after.referenced(
            x,
        ) by {
            assert(before.referenced(x));
            let i = choose|i: int|
                0 <= i < before.entries.len() && #[trigger] before.entries[i] == x;
            before.lemma_half_slot(i);
            assert(after.entries[low_bits(i, less)] == x);
        }
        assert(after@ =~= before@) by {
            assert forall|k: K|
                (#[trigger] after@.contains_key(k) <==> before@.contains_key(k)) && (
                before@.contains_key(k) ==> after@[k] == before@[k]) by {
                assert(0 <= slot_of(k, less) < after.entries.len());
            }
        }
    }

    /// Folds as `merge` does, then halves the directory if no bucket needs
    /// its full width: the second half of the slots goes, and the global
    /// depth falls by one.
    #[verifier::loop_isolation(false)]
    fn shrink(&mut self, bucket_id: usize)
        requires
            old(self).wf(),
            bucket_id < old(self).len(),
        ensures
            final(self).wf(),
            final(self)@ == old(self)@,
            final(self).capacity() == old(self).capacity(),
            ({
                let folds = old(self).table_at(bucket_id as int).is_empty() && old(self).paired(
                    bucket_id as int,
                );
                let halves = old(self).halves_after_fold(folds, bucket_id as int);
                &&& final(self).depth() == old(self).depth() - if halves {
                    1int
                } else {
                    0int
                }
                &&& final(self).len() == pow2(final(self).depth())
                &&& final(self).len() <= old(self).len()
                &&& !folds && !halves ==> *final(self) == *old(self)
                &&& forall|slot: int|
                    #![trigger final(self).depth_at(slot)]
                    #![trigger final(self).table_at(slot)]
                    0 <= slot < final(self).len() ==> final(self).depth_at(slot) == old(
                        self,
                    ).depth_after_fold(folds, bucket_id as int, slot) && final(self).table_at(slot)
                        == old(self).table_after_fold(folds, bucket_id as int, slot)
            }),
    {
        self.merge(bucket_id);
        let ghost merged = *self;
        let ghost folds = old(self).table_at(bucket_id as int).is_empty() && old(self).paired(
            bucket_id as int,
        );
        let len = self.entries.len();
        for i in 0..len
            invariant
                *self == merged,
                merged.wf(),
                len == self.entries.len(),
                forall|j: int| 0 <= j < i ==> #[trigger] self.depth_at(j) < self.depth(),
        {
            if self.buckets[self.entries[i]].local_depth() == self.global_depth {
                proof {
                    assert(merged.depth_at(i as int) == old(self).depth_after_fold(
                        folds,
                        bucket_id as int,
                        i as int,
                    ));
                }
                return;
            }
        }
        proof {
            assert forall|slot: int| 0 <= slot < old(self).len() implies #[trigger] old(
                self,
            ).depth_after_fold(folds, bucket_id as int, slot) < old(self).depth() by {
                assert(merged.depth_at(slot) < merged.depth());
            }
            assert forall|slot: int| 0 <= slot < merged.entries.len() implies merged.buckets[(
            #[trigger] merged.entries[slot]) as int].depth() < merged.global_depth by {
                assert(merged.depth_at(slot) < merged.depth());
            }
            vstd::arithmetic::power2::lemma_pow2_unfold(merged.global_depth as nat);
            assert(merged.depth_at(0) >= 1);
        }
        self.global_depth -= 1;
        let half = power_of_two(self.global_depth);
        self.entries.truncate(half);
        proof {
            Self::lemma_halved(&merged, self);
            assert(old(self).halves_after_fold(folds, bucket_id as int));
            assert forall|slot: int|
                #![trigger self.depth_at(slot)]
                #![trigger self.table_at(slot)]
                0 <= slot < self.len() implies self.depth_at(slot) == old(self).depth_after_fold(
                folds,
                bucket_id as int,
                slot,
            ) && self.table_at(slot) == old(self).table_after_fold(
                folds,
                bucket_id as int,
                slot,
            ) by {
                assert(self.entries[slot] == merged.entries[slot]);
                assert(merged.depth_at(slot) == old(self).depth_after_fold(
                    folds,
                    bucket_id as int,
                    slot,
                ));
                assert(merged.table_at(slot) == old(self).table_after_fold(
                    folds,
                    bucket_id as int,
                    slot,
                ));
            }
        }
    }

    /// Deletes the entry under `key`, if there is one, and then does to
    /// the directory what `mode` asks for.
    pub fn remove(&mut self, key: &K, mode: Mode)
        requires
            old(self).wf(),
        ensures
            final(self).wf(),
            final(self)@ == old(self)@.remove(*key),
            final(self).capacity() == old(self).capacity(),
            ({
                let id = slot_of(*key, old(self).depth());
                let folds = !(mode is No) && old(self).table_at(id).remove(*key).is_empty() && old(
                    self,
                ).paired(id);
                let halves = mode is Shrink && old(self).halves_after_fold(folds, id);
                &&& 0 <= id < old(self).len()
                &&& final(self).depth() == old(self).depth() - if halves {
                    1int
                } else {
                    0int
                }
                &&& final(self).len() == pow2(final(self).depth())
                &&& final(self).len() <= old(self).len()
                &&& forall|slot: int|
                    #![trigger final(self).depth_at(slot)]
                    #![trigger final(self).table_at(slot)]
                    0 <= slot < final(self).len() ==> final(self).depth_at(slot) == old(
                        self,
                    ).depth_after_fold(folds, id, slot) && final(self).table_at(slot) == old(
                        self,
                    ).table_after_fold(folds, id, slot).remove(*key)
            }),
    {
        let bucket_id = self.hash(key);
        let b = self.entries[bucket_id];
        self.buckets[b].remove(key);
        let ghost emptied = *self;
        proof {
            let before = old(self);
            before.buckets[b as int].lemma_finite();
            vstd::set_lib::lemma_len_subset(
                emptied.buckets[b as int]@.dom(),
                before.buckets[b as int]@.dom(),
            );
            Self::lemma_table_changed(before, &emptied, b as int);
            Self::lemma_view_after_table_change(before, &emptied, b as int, *key);
            assert forall|slot: int| 0 <= slot < before.len() implies #[trigger] emptied.table_at(
                slot,
            ) == before.table_at(slot).remove(*key) && emptied.depth_at(slot) == before.depth_at(
                slot,
            ) by {
                let x = before.entries[slot] as int;
                assert(emptied.handle(slot) == before.handle(slot));
                if x != b {
                    assert(emptied.buckets[x] == before.buckets[x]);
                    assert(!before.buckets[x]@.contains_key(*key));
                    assert(before.buckets[x]@.remove(*key) =~= before.buckets[x]@);
                }
            }
            lemma_sibling_in_directory(
                bucket_id,
                before.depth_at(bucket_id as int),
                before.depth(),
            );
        }
        match mode {
            Mode::No => {
                proof {
                    lemma_pow2_pos(self.depth());
                }
            },
            Mode::Merge => self.merge(bucket_id),
            Mode::Shrink => self.shrink(bucket_id),
        }
        proof {
            let before = old(self);
            let id = bucket_id as int;
            let folds = !(mode is No) && before.table_at(id).remove(*key).is_empty()
                && before.paired(id);
            assert forall|slot: int|
                #![trigger self.depth_at(slot)]
                #![trigger self.table_at(slot)]
                0 <= slot < self.len() implies self.depth_at(slot) == before.depth_after_fold(
                folds,
                id,
                slot,
            ) && self.table_at(slot) == before.table_after_fold(folds, id, slot).remove(*key) by {
                assert(emptied.table_at(slot) == before.table_at(slot).remove(*key));
                assert(self.depth_at(slot) == emptied.depth_after_fold(folds, id, slot));
                assert(self.table_at(slot) == emptied.table_after_fold(folds, id, slot));
            }
            if mode is Shrink {
                assert forall|slot: int| 0 <= slot < before.len() implies emptied.depth_after_fold(
                    folds,
                    id,
                    slot,
                ) == before.depth_after_fold(folds, id, slot) by {
                    assert(emptied.table_at(slot) == before.table_at(slot).remove(*key));
                }
                if emptied.halves_after_fold(folds, id) {
                    assert forall|slot: int|
                        0 <= slot < before.len() implies #[trigger] before.depth_after_fold(
                        folds,
                        id,
                        slot,
                    ) < before.depth() by {
                        assert(emptied.depth_after_fold(folds, id, slot) < emptied.depth());
                    }
                }
                if before.halves_after_fold(folds, id) {
                    assert forall|slot: int|
                        0 <= slot < emptied.len() implies #[trigger] emptied.depth_after_fold(
                        folds,
                        id,
                        slot,
                    ) < emptied.depth() by {
                        assert(before.depth_after_fold(folds, id, slot) < before.depth());
                    }
                }
            }
        }
    }

    /// The name of the bucket behind slot `bucket_id`: the low-order bits
    /// of the slot number that the bucket answers to, as many as its local
    /// depth, written as a binary numeral.
    pub fn bucket_id_string(&self, bucket_id: usize) -> (name: String)
        requires
            self.wf(),
            bucket_id < self.len(),
        ensures
            name@ == binary_numeral(bucket_id as int, self.depth_at(bucket_id as int)),
    {
        let width = self.buckets[self.entries[bucket_id]].local_depth();
        let mut name = String::new();
        let mut place: usize = 0;
        while place < width
            invariant
                place <= width <= max_depth(),
                name@ == binary_numeral(bucket_id as int, width as nat).take(place as int),
            decreases width - place,
        {
            let set = bit_is_set(bucket_id, width - 1 - place);
            proof {
                reveal_strlit("1");
                reveal_strlit("0");
            }
            if set {
                name.append("1");
            } else {
                name.append("0");
            }
            proof {
                let whole = binary_numeral(bucket_id as int, width as nat);
                assert(name@ =~= whole.take(place + 1));
            }
            place += 1;
        }
        proof {
            let whole = binary_numeral(bucket_id as int, width as nat);
            assert(whole.take(width as int) =~= whole);
        }
        name
    }

    /// The slots that reference the same bucket as `slot`.
    pub open spec fn sharing(&self, slot: int) -> Set<int> {
        Set::new(|other: int| 0 <= other < self.len() && self.handle(other) == self.handle(slot))
    }

    /// The directory has as many slots as its depth can address.
    pub proof fn lemma_directory_length(&self)
        requires
            self.wf(),
        ensures
            self.len() == pow2(self.depth()),
            1 <= self.depth() <= max_depth(),
    {
    }

    /// The depth invariant: the local depth of the bucket behind any slot
    /// is at least one and at most the global depth; the slots that share
    /// the bucket are those that agree with the slot on as many low-order
    /// bits as the local depth, and there are `2^(depth - local depth)` of
    /// them. The bucket holds no more than the capacity, and only keys that
    /// route to one of those slots.
    pub proof fn lemma_depth_invariant(&self, slot: int)
        requires
            self.wf(),
            0 <= slot < self.len(),
        ensures
            1 <= self.depth_at(slot) <= self.depth(),
            forall|other: int|
                0 <= other < self.len() ==> (self.handle(other) == self.handle(slot) <==> low_bits(
                    other,
                    self.depth_at(slot),
                ) == low_bits(slot, self.depth_at(slot))),
            forall|other: int|
                0 <= other < self.len() && self.handle(other) == self.handle(slot)
                    ==> self.depth_at(other) == self.depth_at(slot) && self.table_at(other)
                    == self.table_at(slot),
            self.sharing(slot).finite(),
            self.sharing(slot).len() == pow2((self.depth() - self.depth_at(slot)) as nat),
            self.table_at(slot).dom().finite(),
            self.table_at(slot).len() <= self.capacity(),
            forall|k: K| #[trigger]
                self.table_at(slot).contains_key(k) ==> slot_of(k, self.depth_at(slot)) == low_bits(
                    slot,
                    self.depth_at(slot),
                ),
    {
        let depth = self.depth_at(slot);
        let suffix = low_bits(slot, depth);
        let b = self.entries[slot] as int;
        lemma_low_bits_range(slot, depth);
        assert forall|other: int| 0 <= other < self.len() implies (self.handle(other)
            == self.handle(slot) <==> low_bits(other, depth) == low_bits(slot, depth)) by {
            assert(self.entries[slot] == self.entries[other] <==> low_bits(slot, depth)
                == low_bits(other, depth));
        }
        assert(self.sharing(slot) =~= crate::bits::slots_with(depth, suffix, self.depth()));
        crate::bits::lemma_slots_with_count(depth, suffix, self.depth());
        self.buckets[b].lemma_finite();
        assert forall|k: K| #[trigger] self.table_at(slot).contains_key(k) implies slot_of(
            k,
            depth,
        ) == suffix by {
            let s = slot_of(k, self.depth());
            lemma_low_bits_range(hash_index(k) as int, self.depth());
            assert(self.entries[s] == b);
            assert(self.entries[slot] == self.entries[s] <==> low_bits(slot, depth) == low_bits(
                s,
                depth,
            ));
            lemma_low_bits_nested(hash_index(k) as int, self.depth(), depth);
        }
    }

    /// The value stored under `key`.
    pub fn get(&self, key: &K) -> (found: Option<&V>)
        requires
            self.wf(),
        ensures
            answers(self@, *key, found),
    {
        let slot = self.hash(key);
        let b = self.entries[slot];
        self.buckets[b].get(key)
    }
}

} // verus!
