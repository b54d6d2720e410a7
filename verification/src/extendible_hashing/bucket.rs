//! The unit of storage: a fixed-capacity table with a local depth.

use std::collections::hash_map::Entry;
use std::collections::HashMap;
use vstd::prelude::*;
use vstd::std_specs::hash::{spec_keys_iter, spec_values_iter};
use vstd::std_specs::iter::IteratorSpec;

use crate::bits::{flip_top_bit, mask_low, max_depth, sibling};
use crate::extendible_hashing::key::{hash_word, routed, HashKey};
use crate::extendible_hashing::model::{answers, stored, updated};

verus! {

/// A table of at most `capacity` entries that answers for every slot whose
/// `local_depth` low-order bits are the bucket's own.
pub struct Bucket<K: HashKey, V> {
    table: HashMap<K, V>,
    bucket_cap: usize,
    local_depth: usize,
}

impl<K: HashKey, V> View for Bucket<K, V> {
    type V = Map<K, V>;

    closed spec fn view(&self) -> Map<K, V> {
        self.table@
    }
}

impl<K: HashKey, V: Copy> Bucket<K, V> {
    /// The number of entries the bucket may hold before it counts as full.
    pub closed spec fn capacity(&self) -> nat {
        self.bucket_cap as nat
    }

    /// The number of hash bits that tell this bucket from every other.
    pub closed spec fn depth(&self) -> nat {
        self.local_depth as nat
    }

    /// Whether the bucket holds no more than its capacity.
    pub open spec fn within_capacity(&self) -> bool {
        self@.len() <= self.capacity()
    }

    /// Whether the bucket has no room left.
    pub open spec fn full(&self) -> bool {
        self@.len() >= self.capacity()
    }

    /// The entries of a bucket are finitely many.
    pub proof fn lemma_finite(&self)
        ensures
            self@.dom().finite(),
    {
    }

    /// An empty bucket.
    pub fn new(bucket_cap: usize, local_depth: usize) -> (bucket: Self)
        ensures
            bucket@ == Map::<K, V>::empty(),
            bucket.capacity() == bucket_cap,
            bucket.depth() == local_depth,
    {
        let mut table = HashMap::new();
        table.reserve(bucket_cap);
        Self { table, bucket_cap, local_depth }
    }

    /// Stores `value` under `key` unless the key is present already, and
    /// reports `true` either way: whether there is room is the caller's
    /// question to ask, with `is_full`, before it inserts.
    pub fn insert(&mut self, key: K, value: V) -> (done: bool)
        ensures
            done,
            final(self)@ == stored(old(self)@, key, value),
            final(self).capacity() == old(self).capacity(),
            final(self).depth() == old(self).depth(),
    {
        proof {
            K::lemma_key_model();
        }
        self.table.entry(key).or_insert(value);
        true
    }

    /// Overwrites the value under `key`; does nothing where the key is
    /// absent.
    pub fn update(&mut self, key: K, value: V)
        ensures
            final(self)@ == updated(old(self)@, key, value),
            final(self).capacity() == old(self).capacity(),
            final(self).depth() == old(self).depth(),
    {
        proof {
            K::lemma_key_model();
        }
        match self.table.entry(key) {
            Entry::Occupied(mut occupied) => {
                occupied.insert(value);
            },
            Entry::Vacant(_) => {},
        }
    }

    /// Deletes the entry under `key`, if there is one.
    pub fn remove(&mut self, key: &K)
        ensures
            final(self)@ == old(self)@.remove(*key),
            final(self).capacity() == old(self).capacity(),
            final(self).depth() == old(self).depth(),
    {
        proof {
            K::lemma_key_model();
        }
        self.table.remove(key);
    }

    /// A mutable reference to the value under `key`.
    pub fn get_mut(&mut self, key: &K) -> (found: Option<&mut V>)
        ensures
            match found {
                Some(value) => old(self)@.contains_key(*key) && *value == old(self)@[*key]
                    && final(self)@ == old(self)@.insert(*key, *final(value)),
                None => !old(self)@.contains_key(*key) && final(self)@ == old(self)@,
            },
            final(self).capacity() == old(self).capacity(),
            final(self).depth() == old(self).depth(),
    {
        proof {
            K::lemma_key_model();
        }
        match self.table.entry(*key) {
            Entry::Occupied(occupied) => Some(occupied.into_mut()),
            Entry::Vacant(_) => None,
        }
    }

    /// The value under `key`.
    pub fn get(&self, key: &K) -> (found: Option<&V>)
        ensures
            answers(self@, *key, found),
    {
        proof {
            K::lemma_key_model();
        }
        self.table.get(key)
    }

    /// Whether there is an entry under `key`.
    pub fn contains_key(&self, key: &K) -> (present: bool)
        ensures
            present == self@.contains_key(*key),
    {
        proof {
            K::lemma_key_model();
        }
        self.table.contains_key(key)
    }

    /// Whether the bucket has no room left.
    pub fn is_full(&self) -> (full: bool)
        ensures
            full == self.full(),
    {
        proof {
            K::lemma_key_model();
        }
        self.table.len() >= self.bucket_cap
    }

    /// Whether the bucket holds nothing.
    pub fn is_empty(&self) -> (empty: bool)
        ensures
            empty == self@.is_empty(),
    {
        self.table.is_empty()
    }

    /// The bucket's local depth.
    pub fn local_depth(&self) -> (depth: usize)
        ensures
            depth == self.depth(),
    {
        self.local_depth
    }

    /// The table itself, for the caller to change as it sees fit.
    pub fn table_mut(&mut self) -> (table: &mut HashMap<K, V>)
        ensures
            table@ == old(self)@,
            final(self)@ == final(table)@,
            final(self).capacity() == old(self).capacity(),
            final(self).depth() == old(self).depth(),
    {
        &mut self.table
    }

    /// The keys of the bucket, each once, in no particular order.
    pub fn keys(&self) -> (keys: Vec<K>)
        ensures
            keys@.no_duplicates(),
            keys@.to_set() == self@.dom(),
    {
        proof {
            K::lemma_key_model();
        }
        let mut keys: Vec<K> = Vec::new();
        for k in it: self.table.keys()
            invariant
                it.seq() == spec_keys_iter(&self.table).remaining(),
                keys@ == it.seq().take(it.index()).unref(),
        {
            proof {
                assert(it.seq().take(it.index() + 1).unref() =~= it.seq().take(
                    it.index(),
                ).unref().push(*k));
            }
            keys.push(*k);
        }
        proof {
            let all = spec_keys_iter(&self.table).remaining();
            assert(all.take(all.len() as int) =~= all);
            assert(keys@ == all.unref());
            assert forall|i: int, j: int|
                0 <= i < keys@.len() && 0 <= j < keys@.len() && i != j implies keys@[i]
                != keys@[j] by {
                assert(all[i] != all[j]);
            }
        }
        keys
    }

    /// Moves into `other` every entry whose key has `suffix` for the
    /// `depth` low-order bits of its hash, and leaves the rest.
    pub fn move_matching(&mut self, other: &mut Self, depth: usize, suffix: usize)
        requires
            depth <= max_depth(),
        ensures
            final(self)@ == old(self)@.remove_keys(routed(depth as nat, suffix as int)),
            final(other)@ == old(other)@.union_prefer_right(
                old(self)@.restrict(routed(depth as nat, suffix as int)),
            ),
            final(self).capacity() == old(self).capacity(),
            final(self).depth() == old(self).depth(),
            final(other).capacity() == old(other).capacity(),
            final(other).depth() == old(other).depth(),
    {
        proof {
            K::lemma_key_model();
        }
        let keys = self.keys();
        let ghost moving = routed::<K>(depth as nat, suffix as int);
        for i in 0..keys.len()
            invariant
                depth <= max_depth(),
                moving == routed::<K>(depth as nat, suffix as int),
                keys@.no_duplicates(),
                keys@.to_set() == old(self)@.dom(),
                self.bucket_cap == old(self).bucket_cap,
                self.local_depth == old(self).local_depth,
                other.bucket_cap == old(other).bucket_cap,
                other.local_depth == old(other).local_depth,
                self@ == old(self)@.remove_keys(keys@.take(i as int).to_set().intersect(moving)),
                other@ == old(other)@.union_prefer_right(
                    old(self)@.restrict(keys@.take(i as int).to_set().intersect(moving)),
                ),
        {
            let key = keys[i];
            let ghost seen = keys@.take(i as int).to_set();
            let ghost seen_next = keys@.take(i + 1).to_set();
            proof {
                K::lemma_key_model();
                assert(keys@.take(i + 1) =~= keys@.take(i as int).push(key));
                keys@.take(i as int).lemma_push_to_set_commute(key);
                assert(seen_next =~= seen.insert(key));
                assert(keys@.to_set().contains(key));
                assert(!seen.contains(key)) by {
                    if seen.contains(key) {
                        let j = choose|j: int|
                            0 <= j < keys@.take(i as int).len() && keys@.take(i as int)[j] == key;
                        assert(keys@[j] == keys@[i as int]);
                    }
                }
            }
            if mask_low(hash_word(&key), depth) == suffix {
                let taken = self.table.remove(&key);
                match taken {
                    Some(value) => {
                        other.table.insert(key, value);
                    },
                    None => {},
                }
                proof {
                    assert(seen_next.intersect(moving) =~= seen.intersect(moving).insert(key));
                    assert(self@ =~= old(self)@.remove_keys(seen_next.intersect(moving)));
                    assert(other@ =~= old(other)@.union_prefer_right(
                        old(self)@.restrict(seen_next.intersect(moving)),
                    ));
                }
            } else {
                proof {
                    assert(seen_next.intersect(moving) =~= seen.intersect(moving));
                }
            }
        }
        proof {
            assert(keys@.take(keys@.len() as int) =~= keys@);
            let gone = keys@.to_set().intersect(moving);
            assert(old(self)@.remove_keys(gone) =~= old(self)@.remove_keys(moving));
            assert(old(self)@.restrict(gone) =~= old(self)@.restrict(moving));
        }
    }

    /// The values of the bucket, one for each entry, in no particular
    /// order.
    pub fn values(&self) -> (values: Vec<V>)
        ensures
            values@.len() == self@.len(),
            values@.to_set() == self@.values(),
    {
        proof {
            K::lemma_key_model();
        }
        let mut values: Vec<V> = Vec::new();
        for v in it: self.table.values()
            invariant
                it.seq() == spec_values_iter(&self.table).remaining(),
                values@ == it.seq().take(it.index()).unref(),
        {
            proof {
                assert(it.seq().take(it.index() + 1).unref() =~= it.seq().take(
                    it.index(),
                ).unref().push(*v));
            }
            values.push(*v);
        }
        proof {
            let all = spec_values_iter(&self.table).remaining();
            assert(all.take(all.len() as int) =~= all);
        }
        values
    }

    /// The number of entries whose key has `suffix` for the `depth`
    /// low-order bits of its hash.
    pub fn count_routed(&self, depth: usize, suffix: usize) -> (count: usize)
        requires
            depth <= max_depth(),
        ensures
            count == self@.dom().intersect(routed(depth as nat, suffix as int)).len(),
    {
        let keys = self.keys();
        let ghost matching = routed::<K>(depth as nat, suffix as int);
        let mut count: usize = 0;
        proof {
            assert(keys@.take(0).to_set().intersect(matching) =~= Set::<K>::empty());
        }
        for i in 0..keys.len()
            invariant
                depth <= max_depth(),
                matching == routed::<K>(depth as nat, suffix as int),
                keys@.no_duplicates(),
                count <= i,
                count == keys@.take(i as int).to_set().intersect(matching).len(),
        {
            let key = keys[i];
            let ghost seen = keys@.take(i as int).to_set();
            proof {
                broadcast use vstd::seq_lib::seq_to_set_is_finite;

                assert(keys@.take(i + 1) =~= keys@.take(i as int).push(key));
                keys@.take(i as int).lemma_push_to_set_commute(key);
                assert(!seen.contains(key)) by {
                    if seen.contains(key) {
                        let j = choose|j: int|
                            0 <= j < keys@.take(i as int).len() && keys@.take(i as int)[j] == key;
                        assert(keys@[j] == keys@[i as int]);
                    }
                }
                assert(seen.intersect(matching).finite());
            }
            if mask_low(hash_word(&key), depth) == suffix {
                proof {
                    assert(seen.insert(key).intersect(matching) =~= seen.intersect(
                        matching,
                    ).insert(key));
                }
                count += 1;
            } else {
                proof {
                    assert(seen.insert(key).intersect(matching) =~= seen.intersect(matching));
                }
            }
        }
        proof {
            assert(keys@.take(keys@.len() as int) =~= keys@);
        }
        count
    }

    /// Raises the local depth by one and returns the new depth.
    pub fn depth_up(&mut self) -> (depth: usize)
        requires
            old(self).depth() < usize::MAX,
        ensures
            depth == old(self).depth() + 1,
            final(self).depth() == depth,
            final(self)@ == old(self)@,
            final(self).capacity() == old(self).capacity(),
    {
        self.local_depth += 1;
        self.local_depth
    }

    /// Lowers the local depth by one and returns the new depth.
    pub fn depth_down(&mut self) -> (depth: usize)
        requires
            old(self).depth() >= 1,
        ensures
            depth == old(self).depth() - 1,
            final(self).depth() == depth,
            final(self)@ == old(self)@,
            final(self).capacity() == old(self).capacity(),
    {
        self.local_depth -= 1;
        self.local_depth
    }

    /// The slot that is this bucket's structural sibling when the bucket is
    /// reached through `bucket_id`: the one that differs from `bucket_id`
    /// in the highest bit the local depth uses, and in no other.
    pub fn pair_index(&self, bucket_id: usize) -> (pair: usize)
        requires
            1 <= self.depth() <= max_depth(),
        ensures
            pair == sibling(bucket_id, self.depth()),
    {
        flip_top_bit(bucket_id, self.local_depth)
    }
}

} // verus!
