//! Laws of the table's operations, stated over the contents that the
//! contracts of `VectorHash::get`, `put` and `delete` speak of: `put` turns
//! the contents `m` into `m.insert(k, v)` and returns `lookup(m, k)`,
//! `delete` turns them into `m.remove(k)` and returns `lookup(m, k)`, and
//! `get` yields `lookup(m, k)`.
use crate::key::TableKey;
use crate::vector_hash::{lookup, VectorHash};
use vstd::prelude::*;

verus! {

/// A freshly built table holds no key: `get` finds nothing, whatever the key.
pub proof fn law_miss_on_empty<K: TableKey, V>(t: VectorHash<K, V>, k: K::V)
    requires
        t.wf(),
        t@ == Map::<K::V, V>::empty(),
    ensures
        !t@.contains_key(k),
        lookup(t@, k) is None,
{
}

/// Putting a key that was absent reports no previous value, and looking the
/// key up afterwards yields the value put.
pub proof fn law_put_then_get<K, V>(m: Map<K, V>, k: K, v: V)
    requires
        !m.contains_key(k),
    ensures
        lookup(m, k) is None,
        lookup(m.insert(k, v), k) == Some(v),
{
}

/// Putting a key twice: the second put returns the first value, and the key
/// then yields the second.
pub proof fn law_overwrite_returns_prior<K, V>(m: Map<K, V>, k: K, v1: V, v2: V)
    ensures
        lookup(m.insert(k, v1), k) == Some(v1),
        lookup(m.insert(k, v1).insert(k, v2), k) == Some(v2),
        m.insert(k, v1).insert(k, v2) == m.insert(k, v2),
{
    assert(m.insert(k, v1).insert(k, v2) =~= m.insert(k, v2));
}

/// After a put, deleting the key returns the value put; the key is then
/// absent, and deleting it again returns nothing and changes nothing.
pub proof fn law_delete_removes_and_returns<K, V>(m: Map<K, V>, k: K, v: V)
    ensures
        lookup(m.insert(k, v), k) == Some(v),
        lookup(m.insert(k, v).remove(k), k) is None,
        m.insert(k, v).remove(k).remove(k) == m.insert(k, v).remove(k),
{
    assert(m.insert(k, v).remove(k).remove(k) =~= m.insert(k, v).remove(k));
}

/// Deleting one key leaves every other key's lookup as it was, and the
/// deleted key absent.
pub proof fn law_delete_keeps_others<K, V>(m: Map<K, V>, k: K, other: K)
    requires
        other != k,
    ensures
        lookup(m.remove(k), other) == lookup(m, other),
        lookup(m.remove(k), k) is None,
{
}

/// Deleting a key and then putting another: the new key yields its value,
/// and every key that is neither keeps its lookup.
pub proof fn law_reuse_after_delete<K, V>(m: Map<K, V>, gone: K, k: K, v: V, other: K)
    requires
        other != gone,
        other != k,
    ensures
        lookup(m.remove(gone).insert(k, v), k) == Some(v),
        lookup(m.remove(gone).insert(k, v), other) == lookup(m, other),
{
}

/// Deleting a key that is absent returns nothing and leaves the contents as
/// they were.
pub proof fn law_delete_absent<K, V>(m: Map<K, V>, k: K)
    requires
        !m.contains_key(k),
    ensures
        lookup(m, k) is None,
        m.remove(k) == m,
{
    assert(m.remove(k) =~= m);
}

} // verus!
