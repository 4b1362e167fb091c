//! Slots of the table, the arithmetic of linear probe sequences, and the
//! count of slots in use.
use vstd::prelude::*;

verus! {

/// One position of the table.
pub enum Slot<K, V> {
    /// Never used since the table was built: ends every probe walk.
    Empty,
    /// Holds a live entry and the low seven bits of its key's digest.
    Occupied { fingerprint: u8, key: K, value: V },
    /// Held an entry that was deleted: probe walks pass over it.
    Tombstone,
}

/// Whether a slot is in use, that is, not `Empty`.
pub open spec fn used<K, V>(s: Slot<K, V>) -> bool {
    !(s is Empty)
}

/// The number of slots of `s` that are in use.
pub open spec fn count_used<K, V>(s: Seq<Slot<K, V>>) -> nat
    decreases s.len(),
{
    if s.len() == 0 {
        0
    } else {
        count_used(s.drop_last()) + if used(s.last()) {
            1nat
        } else {
            0nat
        }
    }
}

/// The number of slots of `s` that hold a tombstone.
pub open spec fn count_tombstones<K, V>(s: Seq<Slot<K, V>>) -> nat
    decreases s.len(),
{
    if s.len() == 0 {
        0
    } else {
        count_tombstones(s.drop_last()) + if s.last() is Tombstone {
            1nat
        } else {
            0nat
        }
    }
}

/// How overwriting one slot changes the number of tombstones.
pub proof fn lemma_tombstones_update<K, V>(s: Seq<Slot<K, V>>, i: int, x: Slot<K, V>)
    requires
        0 <= i < s.len(),
    ensures
        count_tombstones(s.update(i, x)) + (if s[i] is Tombstone { 1int } else { 0int })
            == count_tombstones(s) + (if x is Tombstone { 1int } else { 0int }),
    decreases s.len(),
{
    let t = s.update(i, x);
    if i == s.len() - 1 {
        assert(t.drop_last() =~= s.drop_last());
    } else {
        assert(t.drop_last() =~= s.drop_last().update(i, x));
        lemma_tombstones_update(s.drop_last(), i, x);
    }
}

/// A sequence that holds a tombstone counts at least one.
pub proof fn lemma_tombstone_counted<K, V>(s: Seq<Slot<K, V>>, i: int)
    requires
        0 <= i < s.len(),
        s[i] is Tombstone,
    ensures
        count_tombstones(s) >= 1,
    decreases s.len(),
{
    if i < s.len() - 1 {
        lemma_tombstone_counted(s.drop_last(), i);
    }
}

/// The slot `d` steps after `h` in a table of `n` slots (for `d < n`).
pub open spec fn probe(h: int, d: int, n: int) -> int {
    if h + d < n {
        h + d
    } else {
        h + d - n
    }
}

/// The number of steps from `h` to `i`, wrapping, in a table of `n` slots.
pub open spec fn dist(h: int, i: int, n: int) -> int {
    if i >= h {
        i - h
    } else {
        i + n - h
    }
}

/// Where the probe walk of a digest starts in a table of `n` slots.
pub open spec fn start_of(digest: u64, n: usize) -> int {
    (digest & ((n as u64) - 1) as u64) as int
}

/// The fingerprint that a digest leaves in its slot.
pub open spec fn fingerprint_of(digest: u64) -> u8 {
    (digest & 0x7F) as u8
}

/// Whether `n` is a power of two.
pub open spec fn is_pow2(n: nat) -> bool
    decreases n,
{
    if n <= 1 {
        n == 1
    } else {
        n % 2 == 0 && is_pow2(n / 2)
    }
}

/// Doubling a power of two gives a power of two.
pub proof fn lemma_pow2_double(n: nat)
    requires
        is_pow2(n),
    ensures
        is_pow2(2 * n),
{
    assert((2 * n) / 2 == n);
}

/// A probe walk starts inside the table.
pub proof fn lemma_start_in_range(digest: u64, n: usize)
    requires
        n >= 1,
    ensures
        0 <= start_of(digest, n) < n,
{
    let m: u64 = ((n as u64) - 1) as u64;
    assert(digest & m <= m) by (bit_vector);
}

/// Every slot is reached from `h` in exactly one number of steps below `n`.
pub proof fn lemma_dist_probe(h: int, i: int, n: int)
    requires
        0 <= h < n,
        0 <= i < n,
    ensures
        0 <= dist(h, i, n) < n,
        probe(h, dist(h, i, n), n) == i,
        forall|d: int| 0 <= d < n && #[trigger] probe(h, d, n) == i ==> d == dist(h, i, n),
{
}

/// How overwriting one slot changes the number of slots in use.
pub proof fn lemma_count_update<K, V>(s: Seq<Slot<K, V>>, i: int, x: Slot<K, V>)
    requires
        0 <= i < s.len(),
    ensures
        count_used(s.update(i, x)) + (if used(s[i]) { 1int } else { 0int }) == count_used(s) + (
        if used(x) {
            1int
        } else {
            0int
        }),
    decreases s.len(),
{
    let t = s.update(i, x);
    if i == s.len() - 1 {
        assert(t.drop_last() =~= s.drop_last());
    } else {
        assert(t.drop_last() =~= s.drop_last().update(i, x));
        lemma_count_update(s.drop_last(), i, x);
    }
}

/// When every slot is in use, all of them are counted.
pub proof fn lemma_count_all_used<K, V>(s: Seq<Slot<K, V>>)
    requires
        forall|j: int| 0 <= j < s.len() ==> used(#[trigger] s[j]),
    ensures
        count_used(s) == s.len(),
    decreases s.len(),
{
    if s.len() > 0 {
        lemma_count_all_used(s.drop_last());
    }
}

/// A sequence of `Empty` slots has none in use and no tombstone.
pub proof fn lemma_count_all_empty<K, V>(s: Seq<Slot<K, V>>)
    requires
        forall|j: int| 0 <= j < s.len() ==> !used(#[trigger] s[j]),
    ensures
        count_used(s) == 0,
        count_tombstones(s) == 0,
    decreases s.len(),
{
    if s.len() > 0 {
        lemma_count_all_empty(s.drop_last());
    }
}

} // verus!
