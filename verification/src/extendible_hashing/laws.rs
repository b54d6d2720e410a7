//! What holds of the index whatever its contents: theorems over the map
//! that the contracts of `insert`, `update`, `remove` and `get` speak of.

use vstd::prelude::*;

use crate::extendible_hashing::model::{accepts, looked_up, stored, updated};

verus! {

/// Round trip: a lookup after an insertion that went through finds the
/// value inserted.
pub proof fn law_round_trip<K, V>(table: Map<K, V>, key: K, value: V)
    requires
        accepts(table, key),
    ensures
        looked_up(stored(table, key, value), key) == Some(value),
{
}

/// No overwrite: after one insertion under a key, a second one under the
/// same key is turned down and changes nothing, so that a lookup still
/// finds what the first one left there.
pub proof fn law_no_overwrite<K, V>(table: Map<K, V>, key: K, first: V, second: V)
    ensures
        !accepts(stored(table, key, first), key),
        stored(stored(table, key, first), key, second) == stored(table, key, first),
        accepts(table, key) ==> looked_up(stored(stored(table, key, first), key, second), key)
            == Some(first),
{
}

/// Update of an absent key: the map stays as it is, and the key stays
/// absent.
pub proof fn law_update_absent<K, V>(table: Map<K, V>, key: K, value: V)
    requires
        !table.contains_key(key),
    ensures
        updated(table, key, value) == table,
        looked_up(updated(table, key, value), key) is None,
{
}

/// Update of a present key: a lookup finds the new value, and every other
/// key is as it was.
pub proof fn law_update_present<K, V>(table: Map<K, V>, key: K, value: V)
    requires
        table.contains_key(key),
    ensures
        looked_up(updated(table, key, value), key) == Some(value),
        forall|other: K|
            other != key ==> looked_up(updated(table, key, value), other) == looked_up(
                table,
                other,
            ),
{
}

/// Delete then miss: a lookup after an insertion and a removal of the same
/// key finds nothing.
pub proof fn law_delete_then_miss<K, V>(table: Map<K, V>, key: K, value: V)
    ensures
        looked_up(stored(table, key, value).remove(key), key) is None,
{
}

/// An insertion or a removal under one key leaves every other key as it
/// was.
pub proof fn law_other_keys_untouched<K, V>(table: Map<K, V>, key: K, value: V, other: K)
    requires
        other != key,
    ensures
        looked_up(stored(table, key, value), other) == looked_up(table, other),
        looked_up(table.remove(key), other) == looked_up(table, other),
{
}

} // verus!
