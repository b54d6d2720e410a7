//! Keys of the index and the hash values that route them.

use std::collections::hash_map::DefaultHasher;
use std::hash::Hash;
use std::hash::Hasher;
use vstd::prelude::*;
use vstd::std_specs::hash::obeys_key_model;
use vstd::std_specs::hash::DefaultHasherAdditionalSpecFns;

use crate::bits::low_bits;

verus! {

/// What a hasher has been fed once a `u64` has been hashed into it: the
/// writes `before`, and those that hashing `key` adds.
pub uninterp spec fn fed_u64(before: Seq<Seq<u8>>, key: u64) -> Seq<Seq<u8>>;

/// Feeds `key` to `state` through `<u64 as Hash>::hash`.
///
/// Trusted: what the hasher has been fed afterwards depends on what it had
/// been fed before and on the key, and on nothing else.
#[verifier::external_body]
fn feed_u64(key: &u64, state: &mut DefaultHasher)
    ensures
        final(state)@ == fed_u64(old(state)@, *key),
{
    key.hash(state);
}

/// A key type the index can route: it has a hash value that depends on the
/// key alone, and it is a sound key for the standard hash map that backs a
/// bucket.
pub trait HashKey: Copy + Eq + Hash {
    /// The 64-bit hash value of the key.
    spec fn digest(self) -> u64;

    /// Computes the hash value of the key.
    fn hash_value(&self) -> (h: u64)
        ensures
            h == self.digest(),
    ;

    /// Keys of this type are equal exactly when `==` says so, and hash
    /// deterministically.
    proof fn lemma_key_model()
        ensures
            obeys_key_model::<Self>(),
    ;
}

impl HashKey for u64 {
    open spec fn digest(self) -> u64 {
        DefaultHasher::spec_finish(fed_u64(Seq::empty(), self))
    }

    fn hash_value(&self) -> (h: u64) {
        let mut hasher = DefaultHasher::new();
        feed_u64(self, &mut hasher);
        hasher.finish()
    }

    proof fn lemma_key_model() {
    }
}

impl HashKey for i64 {
    open spec fn digest(self) -> u64 {
        (self as u64).digest()
    }

    fn hash_value(&self) -> (h: u64) {
        let unsigned: u64 = #[verifier::truncate] (*self as u64);
        unsigned.hash_value()
    }

    proof fn lemma_key_model() {
    }
}

/// The hash value of `key` as a machine word, before any masking.
pub open spec fn hash_index<K: HashKey>(key: K) -> usize {
    key.digest() as usize
}

/// The slot to which a directory of the given depth routes `key`: the
/// `depth` low-order bits of its hash.
pub open spec fn slot_of<K: HashKey>(key: K, depth: nat) -> int {
    low_bits(hash_index(key) as int, depth)
}

/// The keys that a directory of the given depth routes to `slot`.
pub open spec fn routed<K: HashKey>(depth: nat, slot: int) -> Set<K> {
    Set::new(|k: K| slot_of(k, depth) == slot)
}

/// The part of `table` that belongs in a bucket of local depth `depth` that
/// slot `slot` references: the entries whose keys agree with the slot on
/// that many low-order bits.
pub open spec fn piece<K: HashKey, V>(table: Map<K, V>, depth: nat, slot: int) -> Map<K, V> {
    table.restrict(routed(depth, low_bits(slot, depth)))
}

/// Computes the hash value of `key` as a machine word.
pub fn hash_word<K: HashKey>(key: &K) -> (word: usize)
    ensures
        word == hash_index(*key),
{
    let h = key.hash_value();
    #[verifier::truncate]
    (h as usize)
}

} // verus!
