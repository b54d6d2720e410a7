//! The index seen as a map: what each operation makes of the map, and what
//! it answers.

use vstd::prelude::*;

verus! {

/// Whether an insertion under `key` goes through: it does unless the key is
/// taken.
pub open spec fn accepts<K, V>(table: Map<K, V>, key: K) -> bool {
    !table.contains_key(key)
}

/// The map after an insertion of `value` under `key`: an entry already under
/// the key stays as it is.
pub open spec fn stored<K, V>(table: Map<K, V>, key: K, value: V) -> Map<K, V> {
    if table.contains_key(key) {
        table
    } else {
        table.insert(key, value)
    }
}

/// The map after an update of `key` to `value`: a key that is absent stays
/// absent.
pub open spec fn updated<K, V>(table: Map<K, V>, key: K, value: V) -> Map<K, V> {
    if table.contains_key(key) {
        table.insert(key, value)
    } else {
        table
    }
}

/// What a lookup of `key` answers.
pub open spec fn looked_up<K, V>(table: Map<K, V>, key: K) -> Option<V> {
    if table.contains_key(key) {
        Some(table[key])
    } else {
        None
    }
}

/// Whether `found`, a reference into the map or none, is what a lookup of
/// `key` answers.
pub open spec fn answers<K, V>(table: Map<K, V>, key: K, found: Option<&V>) -> bool {
    match found {
        Some(value) => looked_up(table, key) == Some(*value),
        None => looked_up(table, key) is None,
    }
}

} // verus!
