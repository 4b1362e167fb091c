//! The table: open addressing with linear probing over a power-of-two
//! number of slots, tombstones for deleted entries, and fingerprints that let
//! most non-matching slots be passed without comparing keys.
use crate::key::TableKey;
use crate::slot::{
    count_tombstones, count_used, dist, fingerprint_of, is_pow2, lemma_count_all_empty, lemma_count_all_used,
    lemma_count_update, lemma_dist_probe, lemma_tombstone_counted,
    lemma_tombstones_update, lemma_pow2_double, lemma_start_in_range, probe, start_of,
    used, Slot,
};
use vstd::prelude::*;

verus! {

/// The most entries a table is asked to hold: beyond it the grown slot
/// array could not be addressed.
pub const MAX_ENTRIES: usize = usize::MAX / 32;

/// The result of looking `k` up in `m`.
pub open spec fn lookup<K, V>(m: Map<K, V>, k: K) -> Option<V> {
    if m.contains_key(k) {
        Some(m[k])
    } else {
        None
    }
}

/// A hash table from keys to values.
pub struct VectorHash<K: TableKey, V> {
    size: usize,
    slots: Vec<Slot<K, V>>,
    elements: usize,
    tombstones: usize,
    resize_threshold: usize,
    contents: Ghost<Map<K::V, V>>,
}

impl<K: TableKey, V> View for VectorHash<K, V> {
    type V = Map<K::V, V>;

    closed spec fn view(&self) -> Map<K::V, V> {
        self.contents@
    }
}

impl<K: TableKey, V> VectorHash<K, V> {
    /// The number of slots.
    pub closed spec fn spec_capacity(&self) -> nat {
        self.size as nat
    }

    /// The number of slots that hold a tombstone.
    pub closed spec fn spec_tombstones(&self) -> nat {
        self.tombstones as nat
    }

    /// Where the probe walk for key `k` starts.
    spec fn start(&self, k: K::V) -> int {
        start_of(K::spec_digest(k), self.size)
    }

    /// Slot `i` holds an entry whose key has view `k`.
    spec fn holds(&self, i: int, k: K::V) -> bool {
        self.slots@[i] is Occupied && self.slots@[i]->key@ == k
    }

    /// The occupied slot `i` agrees with the contents, carries its key's
    /// fingerprint, and is reached from its key's start without meeting an
    /// `Empty` slot.
    spec fn slot_ok(&self, i: int) -> bool {
        let s = self.slots@[i];
        let k = s->key@;
        let h = self.start(k);
        &&& s->fingerprint == fingerprint_of(K::spec_digest(k))
        &&& self.contents@.contains_key(k)
        &&& self.contents@[k] == s->value
        &&& forall|d: int|
            0 <= d < dist(h, i, self.size as int) ==> used(
                #[trigger] self.slots@[probe(h, d, self.size as int)],
            )
    }

    /// Every invariant but the bound on the load.
    spec fn inv(&self) -> bool {
        let n = self.size as int;
        &&& self.slots@.len() == n
        &&& n >= 128
        &&& is_pow2(n as nat)
        &&& self.resize_threshold == n / 2
        &&& count_used(self.slots@) == self.elements + self.tombstones
        &&& count_tombstones(self.slots@) == self.tombstones
        &&& self.elements + self.tombstones < n
        &&& self.contents@.dom().finite()
        &&& self.contents@.len() == self.elements
        &&& forall|i: int| 0 <= i < n && (#[trigger] self.slots@[i]) is Occupied ==> self.slot_ok(i)
        &&& forall|k: K::V|
            #[trigger] self.contents@.contains_key(k) ==> exists|i: int|
                0 <= i < n && #[trigger] self.holds(i, k)
        &&& forall|i: int, j: int|
            0 <= i < n && 0 <= j < n && #[trigger] self.slots@[i] is Occupied
                && #[trigger] self.slots@[j] is Occupied && self.slots@[i]->key@
                == self.slots@[j]->key@ ==> i == j
    }

    /// The table is well formed: its invariants hold and live entries with
    /// tombstones fill less than half of it.
    pub closed spec fn wf(&self) -> bool {
        &&& self.inv()
        &&& self.elements + self.tombstones < self.size / 2
        &&& self.tombstones <= self.size / 3
    }

    /// The shape of a well-formed table: its capacity is a power of two and
    /// at least 128, and live entries with tombstones fill less than half of
    /// it.
    pub proof fn lemma_capacity_shape(&self)
        requires
            self.wf(),
        ensures
            self@.dom().finite(),
            self@.len() + self.spec_tombstones() < self.spec_capacity() / 2,
            is_pow2(self.spec_capacity()),
            self.spec_capacity() >= 128,
    {
    }

    /// An empty table of `capacity` slots.
    fn empty_table(capacity: usize) -> (r: Self)
        requires
            capacity >= 128,
            is_pow2(capacity as nat),
        ensures
            r.wf(),
            r@ == Map::<K::V, V>::empty(),
            r.spec_capacity() == capacity,
            r.spec_tombstones() == 0,
    {
        let mut slots: Vec<Slot<K, V>> = Vec::new();
        let mut j: usize = 0;
        while j < capacity
            invariant
                j <= capacity,
                slots@.len() == j,
                forall|x: int| 0 <= x < j ==> (#[trigger] slots@[x]) is Empty,
            decreases capacity - j,
        {
            slots.push(Slot::Empty);
            j = j + 1;
        }
        proof {
            lemma_count_all_empty(slots@);
        }
        VectorHash {
            size: capacity,
            slots,
            elements: 0,
            tombstones: 0,
            resize_threshold: capacity / 2,
            contents: Ghost(Map::empty()),
        }
    }

    /// An empty table of 128 slots.
    pub fn new() -> (r: Self)
        ensures
            r.wf(),
            r@ == Map::<K::V, V>::empty(),
            r.spec_capacity() == 128,
            r.spec_tombstones() == 0,
    {
        proof {
            reveal_with_fuel(is_pow2, 8);
        }
        Self::empty_table(128)
    }

    /// An empty table whose number of slots is the least power of two that
    /// is at least `capacity` and at least 128.
    pub fn with_capacity(capacity: usize) -> (r: Self)
        requires
            capacity <= usize::MAX / 2,
        ensures
            r.wf(),
            r@ == Map::<K::V, V>::empty(),
            r.spec_tombstones() == 0,
            r.spec_capacity() >= capacity,
            r.spec_capacity() >= 128,
            is_pow2(r.spec_capacity()),
            r.spec_capacity() == 128 || r.spec_capacity() < 2 * capacity,
    {
        let mut size: usize = 128;
        proof {
            reveal_with_fuel(is_pow2, 8);
        }
        while size < capacity
            invariant
                capacity <= usize::MAX / 2,
                size >= 128,
                is_pow2(size as nat),
                size == 128 || size < 2 * capacity,
            decreases usize::MAX - size,
        {
            proof {
                lemma_pow2_double(size as nat);
            }
            size = size * 2;
        }
        Self::empty_table(size)
    }

    /// The number of slots.
    pub fn capacity(&self) -> (r: usize)
        ensures
            r == self.spec_capacity(),
    {
        self.size
    }

    /// The number of slots that hold a tombstone.
    pub fn tombstones(&self) -> (r: usize)
        ensures
            r == self.spec_tombstones(),
    {
        self.tombstones
    }

    /// The number of live entries.
    pub fn len(&self) -> (r: usize)
        requires
            self.wf(),
        ensures
            r == self@.len(),
    {
        self.elements
    }

    /// The start of the key's probe walk and the key's digest.
    fn index(&self, key: &K) -> (r: (usize, u64))
        requires
            self.inv(),
        ensures
            r.1 == K::spec_digest(key@),
            r.0 == self.start(key@),
            r.0 < self.size,
    {
        let hash = key.digest();
        proof {
            lemma_start_in_range(hash, self.size);
        }
        (((hash & ((self.size as u64) - 1)) as usize), hash)
    }

    /// No slot holds `k` when the walk from `k`'s start meets an `Empty`
    /// slot at step `d` without passing a slot that holds `k`.
    proof fn lemma_miss(&self, k: K::V, d: int)
        requires
            self.inv(),
            0 <= d < self.size,
            0 <= self.start(k) < self.size,
            self.slots@[probe(self.start(k), d, self.size as int)] is Empty,
            forall|e: int|
                0 <= e < d ==> !self.holds(#[trigger] probe(self.start(k), e, self.size as int), k),
        ensures
            !self@.contains_key(k),
    {
        let n = self.size as int;
        let h = self.start(k);
        if self@.contains_key(k) {
            let i = choose|i: int| 0 <= i < n && #[trigger] self.holds(i, k);
            assert(self.slot_ok(i));
            lemma_dist_probe(h, i, n);
            let di = dist(h, i, n);
            if di < d {
                assert(!self.holds(probe(h, di, n), k));
            } else if di > d {
                assert(used(self.slots@[probe(h, d, n)]));
            }
        }
    }

    /// A walk from `h` that meets only slots in use covers the whole table.
    proof fn lemma_walk_full(&self, h: int)
        requires
            self.inv(),
            0 <= h < self.size,
            forall|e: int|
                0 <= e < self.size ==> used(#[trigger] self.slots@[probe(h, e, self.size as int)]),
        ensures
            count_used(self.slots@) == self.size,
    {
        let n = self.size as int;
        assert forall|j: int| 0 <= j < n implies used(#[trigger] self.slots@[j]) by {
            lemma_dist_probe(h, j, n);
            assert(used(self.slots@[probe(h, dist(h, j, n), n)]));
        }
        lemma_count_all_used(self.slots@);
    }

    /// Stores `value` under `key` without growing: over the entry that holds
    /// an equal key if there is one, else in the first tombstone or the
    /// `Empty` slot that ends the walk.
    fn place(&mut self, key: K, value: V) -> (r: Option<V>)
        requires
            old(self).inv(),
            old(self).elements + old(self).tombstones + 1 < old(self).size,
        ensures
            final(self).inv(),
            final(self)@ == old(self)@.insert(key@, value),
            r == lookup(old(self)@, key@),
            final(self).size == old(self).size,
            old(self)@.contains_key(key@) ==> final(self).elements == old(self).elements
                && final(self).tombstones == old(self).tombstones,
            !old(self)@.contains_key(key@) ==> final(self).elements == old(self).elements + 1
                && final(self).tombstones <= old(self).tombstones,
    {
        let (start, hash) = self.index(&key);
        proof {
            assert(hash & 0x7F <= 0x7F) by (bit_vector);
        }
        let fingerprint = (hash & 0x7F) as u8;
        let n = self.size;
        let mut i = start;
        let mut first_deleted: Option<usize> = None;
        let ghost h = start as int;
        let ghost kv = key@;
        let ghost val = value;
        let ghost mut d: int = 0;
        let ghost mut dt: int = 0;
        loop
            invariant
                self.inv(),
                *self == *old(self),
                self.elements + self.tombstones + 1 < n,
                n == self.size,
                h == self.start(kv),
                0 <= h < n,
                kv == key@,
                val == value,
                hash == K::spec_digest(kv),
                fingerprint == fingerprint_of(hash),
                0 <= d < n,
                i == probe(h, d, n as int),
                forall|e: int|
                    0 <= e < d ==> used(#[trigger] self.slots@[probe(h, e, n as int)]),
                forall|e: int| 0 <= e < d ==> !self.holds(#[trigger] probe(h, e, n as int), kv),
                first_deleted matches Some(j) ==> 0 <= dt < d && j == probe(h, dt, n as int)
                    && self.slots@[j as int] is Tombstone,
            decreases n - d,
        {
            if matches!(self.slots[i], Slot::Empty) {
                let target = match first_deleted {
                    Some(j) => j,
                    None => i,
                };
                let ghost dtarget = if first_deleted.is_some() { dt } else { d };
                let ghost pre = *self;
                proof {
                    self.lemma_miss(kv, d);
                    lemma_dist_probe(h, target as int, n as int);
                    lemma_count_update(self.slots@, target as int, Slot::Occupied { fingerprint, key, value });
                    lemma_tombstones_update(self.slots@, target as int, Slot::Occupied { fingerprint, key, value });
                    if first_deleted.is_some() {
                        lemma_tombstone_counted(self.slots@, target as int);
                    }
                }
                if first_deleted.is_some() {
                    self.tombstones = self.tombstones - 1;
                }
                self.slots[target] = Slot::Occupied { fingerprint, key, value };
                self.elements = self.elements + 1;
                proof {
                    self.contents@ = self.contents@.insert(kv, val);
                    assert(self.contents@.dom() =~= pre.contents@.dom().insert(kv));
                    self.lemma_after_store(pre, target as int, dtarget);
                }
                return None;
            }
            let is_match = match &self.slots[i] {
                Slot::Occupied { fingerprint: f, key: k, .. } => *f == fingerprint && k.same_key(&key),
                _ => false,
            };
            proof {
                if self.holds(i as int, kv) {
                    assert(self.slot_ok(i as int));
                }
            }
            if is_match {
                let ghost pre = *self;
                let mut slot = Slot::Occupied { fingerprint, key, value };
                proof {
                    assert(self.slot_ok(i as int));
                    lemma_count_update(self.slots@, i as int, slot);
                    lemma_tombstones_update(self.slots@, i as int, slot);
                }
                std::mem::swap(&mut self.slots[i], &mut slot);
                proof {
                    self.contents@ = self.contents@.insert(kv, val);
                    assert(self.contents@.dom() =~= pre.contents@.dom());
                    self.lemma_after_overwrite(pre, i as int);
                }
                return match slot {
                    Slot::Occupied { value: old_value, .. } => Some(old_value),
                    _ => None,
                };
            }
            if first_deleted.is_none() && matches!(self.slots[i], Slot::Tombstone) {
                first_deleted = Some(i);
                proof {
                    dt = d;
                }
            }
            proof {
                if d + 1 == n {
                    self.lemma_walk_full(h);
                }
            }
            i = if i + 1 == n {
                0
            } else {
                i + 1
            };
            proof {
                d = d + 1;
            }
        }
    }

    /// The invariants survive storing a key that was absent in slot `t`,
    /// reached from the key's start in `dt` steps over slots in use.
    proof fn lemma_after_store(&self, pre: Self, t: int, dt: int)
        requires
            pre.inv(),
            self.size == pre.size,
            self.resize_threshold == pre.resize_threshold,
            0 <= t < pre.size,
            !(pre.slots@[t] is Occupied),
            self.slots@ == pre.slots@.update(t, self.slots@[t]),
            self.slots@[t] is Occupied,
            !pre@.contains_key(self.slots@[t]->key@),
            self.contents@ == pre.contents@.insert(self.slots@[t]->key@, self.slots@[t]->value),
            self.slots@[t]->fingerprint == fingerprint_of(K::spec_digest(self.slots@[t]->key@)),
            0 <= dt < pre.size,
            t == probe(self.start(self.slots@[t]->key@), dt, self.size as int),
            0 <= self.start(self.slots@[t]->key@) < self.size,
            forall|e: int|
                0 <= e < dt ==> used(
                    #[trigger] pre.slots@[probe(self.start(self.slots@[t]->key@), e, self.size as int)],
                ),
            count_used(self.slots@) == self.elements + self.tombstones,
            count_tombstones(self.slots@) == self.tombstones,
            self.elements == pre.elements + 1,
            self.tombstones <= pre.tombstones,
            self.elements + self.tombstones < self.size,
        ensures
            self.inv(),
    {
        let n = self.size as int;
        let kv = self.slots@[t]->key@;
        let h = self.start(kv);
        lemma_dist_probe(h, t, n);
        assert forall|i: int| 0 <= i < n && (#[trigger] self.slots@[i]) is Occupied implies self.slot_ok(i) by {
            if i != t {
                assert(pre.slot_ok(i));
                let hi = self.start(self.slots@[i]->key@);
                assert(hi == pre.start(pre.slots@[i]->key@));
                assert forall|e: int| 0 <= e < dist(hi, i, n) implies used(#[trigger] self.slots@[probe(hi, e, n)]) by {
                    let p = probe(hi, e, n);
                    assert(used(pre.slots@[p]));
                    if p != t {
                        assert(self.slots@[p] == pre.slots@[p]);
                    }
                }
            } else {
                assert forall|e: int| 0 <= e < dist(h, i, n) implies used(#[trigger] self.slots@[probe(h, e, n)]) by {
                    assert(used(pre.slots@[probe(h, e, n)]));
                }
            }
        }
        assert forall|k: K::V| #[trigger] self.contents@.contains_key(k) implies exists|i: int|
            0 <= i < n && #[trigger] self.holds(i, k) by {
            if k == kv {
                assert(self.holds(t, k));
            } else {
                let i = choose|i: int| 0 <= i < n && #[trigger] pre.holds(i, k);
                assert(self.holds(i, k));
            }
        }
        assert forall|i: int, j: int|
            0 <= i < n && 0 <= j < n && #[trigger] self.slots@[i] is Occupied
                && #[trigger] self.slots@[j] is Occupied && self.slots@[i]->key@
                == self.slots@[j]->key@ implies i == j by {
            if i != t {
                assert(pre.slot_ok(i));
            }
            if j != t {
                assert(pre.slot_ok(j));
            }
        }
    }

    /// The invariants survive replacing the entry of slot `i` by one with an
    /// equal key.
    proof fn lemma_after_overwrite(&self, pre: Self, i: int)
        requires
            pre.inv(),
            self.size == pre.size,
            self.resize_threshold == pre.resize_threshold,
            self.elements == pre.elements,
            self.tombstones == pre.tombstones,
            0 <= i < pre.size,
            pre.slots@[i] is Occupied,
            self.slots@ == pre.slots@.update(i, self.slots@[i]),
            self.slots@[i] is Occupied,
            self.slots@[i]->key@ == pre.slots@[i]->key@,
            self.slots@[i]->fingerprint == pre.slots@[i]->fingerprint,
            self.contents@ == pre.contents@.insert(self.slots@[i]->key@, self.slots@[i]->value),
            count_used(self.slots@) == count_used(pre.slots@),
            count_tombstones(self.slots@) == count_tombstones(pre.slots@),
        ensures
            self.inv(),
    {
        let n = self.size as int;
        let kv = self.slots@[i]->key@;
        assert(pre.slot_ok(i));
        assert(self.contents@.dom() =~= pre.contents@.dom());
        assert forall|x: int| 0 <= x < n && (#[trigger] self.slots@[x]) is Occupied implies self.slot_ok(x) by {
            assert(pre.slot_ok(x));
            let hx = self.start(self.slots@[x]->key@);
            assert(hx == pre.start(pre.slots@[x]->key@));
            assert forall|e: int| 0 <= e < dist(hx, x, n) implies used(#[trigger] self.slots@[probe(hx, e, n)]) by {
                let p = probe(hx, e, n);
                assert(used(pre.slots@[p]));
                if p != i {
                    assert(self.slots@[p] == pre.slots@[p]);
                }
            }
        }
        assert forall|k: K::V| #[trigger] self.contents@.contains_key(k) implies exists|x: int|
            0 <= x < n && #[trigger] self.holds(x, k) by {
            let x = choose|x: int| 0 <= x < n && #[trigger] pre.holds(x, k);
            assert(self.holds(x, k));
        }
        assert forall|x: int, y: int|
            0 <= x < n && 0 <= y < n && #[trigger] self.slots@[x] is Occupied
                && #[trigger] self.slots@[y] is Occupied && self.slots@[x]->key@
                == self.slots@[y]->key@ implies x == y by {
            assert(pre.slots@[x] is Occupied && pre.slots@[y] is Occupied);
        }
    }

    /// Moves every live entry into a fresh table of `capacity` slots, which
    /// then takes this table's place; the old slots are dropped.
    fn rebuild(&mut self, capacity: usize)
        requires
            old(self).inv(),
            capacity >= 128,
            is_pow2(capacity as nat),
            old(self).elements < capacity / 2,
        ensures
            final(self).wf(),
            final(self)@ == old(self)@,
            final(self).size == capacity,
            final(self).tombstones == 0,
    {
        let mut table = Self::empty_table(capacity);
        std::mem::swap(self, &mut table);
        let ghost prev = table;
        let ghost s = prev.slots@;
        let ghost m = prev.contents@;
        let ghost n = prev.size as int;
        let mut rest = table.slots;
        while rest.len() > 0
            invariant
                self.inv(),
                self.size == capacity,
                self.tombstones == 0,
                prev.inv(),
                s == prev.slots@,
                m == prev.contents@,
                n == prev.size,
                s.len() == n,
                m.len() < capacity / 2,
                rest@.len() <= n,
                rest@ == s.subrange(0, rest@.len() as int),
                forall|k: K::V| #[trigger]
                    self@.contains_key(k) ==> m.contains_key(k) && self@[k] == m[k],
                forall|j: int|
                    rest@.len() <= j < n && (#[trigger] s[j]) is Occupied ==> self@.contains_key(
                        s[j]->key@,
                    ),
                forall|j: int|
                    0 <= j < rest@.len() && (#[trigger] s[j]) is Occupied ==> !self@.contains_key(
                        s[j]->key@,
                    ),
            decreases rest@.len(),
        {
            let ghost j = rest@.len() - 1;
            let slot = rest.pop().unwrap();
            proof {
                assert(slot == s[j]);
                assert(rest@ =~= s.subrange(0, j));
            }
            match slot {
                Slot::Occupied { key, value, .. } => {
                    proof {
                        assert(prev.slot_ok(j));
                        assert(self@.dom().subset_of(m.dom()));
                        vstd::set_lib::lemma_len_subset(self@.dom(), m.dom());
                    }
                    self.place(key, value);
                    proof {
                        assert forall|x: int|
                            0 <= x < rest@.len() && (#[trigger] s[x]) is Occupied implies !self@.contains_key(
                                s[x]->key@,
                            ) by {
                            assert(x != j);
                        }
                    }
                },
                _ => {},
            }
        }
        proof {
            assert forall|k: K::V| #[trigger] m.contains_key(k) implies self@.contains_key(k) by {
                let i = choose|i: int| 0 <= i < n && #[trigger] prev.holds(i, k);
            }
            assert(self@ =~= m);
        }
    }

    /// Replaces the table by one of four times as many slots holding the
    /// same entries.
    fn resize(&mut self)
        requires
            old(self).inv(),
            old(self).elements + old(self).tombstones >= old(self).size / 2,
            old(self).elements + old(self).tombstones <= old(self).size / 2,
            old(self).tombstones <= old(self).size / 3,
            old(self).elements <= MAX_ENTRIES,
        ensures
            final(self).wf(),
            final(self)@ == old(self)@,
            final(self).size == 4 * old(self).size,
            final(self).tombstones == 0,
    {
        let n = self.size;
        proof {
            assert(n % 2 == 0);
            assert(4 * n <= usize::MAX);
            lemma_pow2_double(n as nat);
            lemma_pow2_double(2 * n as nat);
        }
        self.rebuild(n * 4);
    }

    /// Replaces the table by one of as many slots holding the same entries
    /// and no tombstone.
    fn clear_tombstones(&mut self)
        requires
            old(self).inv(),
            old(self).elements < old(self).size / 2,
        ensures
            final(self).wf(),
            final(self)@ == old(self)@,
            final(self).size == old(self).size,
            final(self).tombstones == 0,
    {
        let n = self.size;
        self.rebuild(n);
    }

    /// Stores `value` under `key` and returns the value it replaced, if any.
    /// The table grows to four times its slots when live entries and
    /// tombstones come to fill half of it.
    pub fn put(&mut self, key: K, value: V) -> (r: Option<V>)
        requires
            old(self).wf(),
            old(self)@.len() < MAX_ENTRIES,
        ensures
            final(self).wf(),
            final(self)@ == old(self)@.insert(key@, value),
            r == lookup(old(self)@, key@),
            old(self)@.contains_key(key@) ==> final(self).spec_capacity()
                == old(self).spec_capacity() && final(self).spec_tombstones()
                == old(self).spec_tombstones(),
            final(self).spec_capacity() == old(self).spec_capacity() || final(self).spec_capacity()
                == 4 * old(self).spec_capacity(),
            final(self).spec_capacity() == 4 * old(self).spec_capacity()
                ==> final(self).spec_tombstones() == 0,
            !old(self)@.contains_key(key@) && old(self)@.len() + 1 >= old(self).spec_capacity() / 2
                ==> final(self).spec_capacity() == 4 * old(self).spec_capacity(),
            old(self)@.len() + 1 + old(self).spec_tombstones() < old(self).spec_capacity() / 2
                ==> final(self).spec_capacity() == old(self).spec_capacity()
                && final(self).spec_tombstones() <= old(self).spec_tombstones(),
    {
        let r = self.place(key, value);
        if self.elements + self.tombstones >= self.resize_threshold {
            self.resize();
        }
        r
    }

    /// Removes the entry of `key` and returns its value, if there is one.
    /// The slot becomes a tombstone; when tombstones come to fill more than
    /// a third of the table, it is rebuilt without them.
    pub fn delete(&mut self, key: &K) -> (r: Option<V>)
        requires
            old(self).wf(),
        ensures
            final(self).wf(),
            final(self)@ == old(self)@.remove(key@),
            r == lookup(old(self)@, key@),
            final(self).spec_capacity() == old(self).spec_capacity(),
            !old(self)@.contains_key(key@) ==> *final(self) == *old(self),
            old(self)@.contains_key(key@) ==> final(self).spec_tombstones() == if old(
                self,
            ).spec_tombstones() + 1 > old(self).spec_capacity() / 3 {
                0
            } else {
                old(self).spec_tombstones() + 1
            },
    {
        let (start, hash) = self.index(key);
        proof {
            assert(hash & 0x7F <= 0x7F) by (bit_vector);
        }
        let fingerprint = (hash & 0x7F) as u8;
        let n = self.size;
        let mut i = start;
        let ghost h = start as int;
        let ghost kv = key@;
        let ghost mut d: int = 0;
        loop
            invariant
                self.wf(),
                *self == *old(self),
                n == self.size,
                h == self.start(kv),
                0 <= h < n,
                kv == key@,
                hash == K::spec_digest(kv),
                fingerprint == fingerprint_of(hash),
                0 <= d < n,
                i == probe(h, d, n as int),
                forall|e: int|
                    0 <= e < d ==> used(#[trigger] self.slots@[probe(h, e, n as int)]),
                forall|e: int| 0 <= e < d ==> !self.holds(#[trigger] probe(h, e, n as int), kv),
            decreases n - d,
        {
            if matches!(self.slots[i], Slot::Empty) {
                proof {
                    self.lemma_miss(kv, d);
                }
                return None;
            }
            let is_match = match &self.slots[i] {
                Slot::Occupied { fingerprint: f, key: k, .. } => *f == fingerprint && k.same_key(key),
                _ => false,
            };
            proof {
                if self.holds(i as int, kv) {
                    assert(self.slot_ok(i as int));
                }
            }
            if is_match {
                let ghost pre = *self;
                let mut slot = Slot::Tombstone;
                proof {
                    assert(self.slot_ok(i as int));
                    lemma_count_update(self.slots@, i as int, slot);
                    lemma_tombstones_update(self.slots@, i as int, slot);
                    assert(self.contents@.remove(kv).dom() =~= self.contents@.dom().remove(kv));
                }
                std::mem::swap(&mut self.slots[i], &mut slot);
                self.tombstones = self.tombstones + 1;
                self.elements = self.elements - 1;
                proof {
                    self.contents@ = self.contents@.remove(kv);
                    self.lemma_after_remove(pre, i as int);
                }
                if self.tombstones > self.size / 3 {
                    self.clear_tombstones();
                }
                return match slot {
                    Slot::Occupied { value, .. } => Some(value),
                    _ => None,
                };
            }
            proof {
                if d + 1 == n {
                    self.lemma_walk_full(h);
                }
            }
            i = if i + 1 == n {
                0
            } else {
                i + 1
            };
            proof {
                d = d + 1;
            }
        }
    }

    /// The invariants survive turning the entry of slot `i` into a
    /// tombstone and removing its key from the contents.
    proof fn lemma_after_remove(&self, pre: Self, i: int)
        requires
            pre.wf(),
            self.size == pre.size,
            self.resize_threshold == pre.resize_threshold,
            self.elements + 1 == pre.elements,
            self.tombstones == pre.tombstones + 1,
            0 <= i < pre.size,
            pre.slots@[i] is Occupied,
            self.slots@ == pre.slots@.update(i, Slot::Tombstone),
            self.contents@ == pre.contents@.remove(pre.slots@[i]->key@),
            count_used(self.slots@) == count_used(pre.slots@),
            count_tombstones(self.slots@) == count_tombstones(pre.slots@) + 1,
        ensures
            self.inv(),
            self.elements + self.tombstones < self.size / 2,
    {
        let n = self.size as int;
        let kv = pre.slots@[i]->key@;
        assert(pre.slot_ok(i));
        assert(self.contents@.dom() =~= pre.contents@.dom().remove(kv));
        assert(pre.contents@.dom().contains(kv));
        assert forall|x: int| 0 <= x < n && (#[trigger] self.slots@[x]) is Occupied implies self.slot_ok(x) by {
            assert(x != i);
            assert(self.slots@[x] == pre.slots@[x]);
            assert(pre.slot_ok(x));
            let hx = self.start(self.slots@[x]->key@);
            assert(hx == pre.start(pre.slots@[x]->key@));
            assert forall|e: int| 0 <= e < dist(hx, x, n) implies used(#[trigger] self.slots@[probe(hx, e, n)]) by {
                let p = probe(hx, e, n);
                assert(used(pre.slots@[p]));
                if p != i {
                    assert(self.slots@[p] == pre.slots@[p]);
                }
            }
        }
        assert forall|k: K::V| #[trigger] self.contents@.contains_key(k) implies exists|x: int|
            0 <= x < n && #[trigger] self.holds(x, k) by {
            let x = choose|x: int| 0 <= x < n && #[trigger] pre.holds(x, k);
            assert(self.holds(x, k));
        }
        assert forall|x: int, y: int|
            0 <= x < n && 0 <= y < n && #[trigger] self.slots@[x] is Occupied
                && #[trigger] self.slots@[y] is Occupied && self.slots@[x]->key@
                == self.slots@[y]->key@ implies x == y by {
            assert(pre.slots@[x] is Occupied && pre.slots@[y] is Occupied);
        }
    }

    /// The value stored under `key`, if any.
    pub fn get(&self, key: &K) -> (r: Option<&V>)
        requires
            self.wf(),
        ensures
            r.is_some() == self@.contains_key(key@),
            r.is_some() ==> *r.unwrap() == self@[key@],
    {
        let (start, hash) = self.index(key);
        proof {
            assert(hash & 0x7F <= 0x7F) by (bit_vector);
        }
        let fingerprint = (hash & 0x7F) as u8;
        let n = self.size;
        let mut i = start;
        let ghost h = start as int;
        let ghost mut d: int = 0;
        loop
            invariant
                self.wf(),
                n == self.size,
                h == self.start(key@),
                0 <= h < n,
                hash == K::spec_digest(key@),
                fingerprint == fingerprint_of(hash),
                0 <= d < n,
                i == probe(h, d, n as int),
                forall|e: int|
                    0 <= e < d ==> used(#[trigger] self.slots@[probe(h, e, n as int)]),
                forall|e: int| 0 <= e < d ==> !self.holds(#[trigger] probe(h, e, n as int), key@),
            decreases n - d,
        {
            match &self.slots[i] {
                Slot::Empty => {
                    proof {
                        self.lemma_miss(key@, d);
                    }
                    return None;
                },
                Slot::Tombstone => {},
                Slot::Occupied { fingerprint: f, key: k, value: v } => {
                    if *f == fingerprint && k.same_key(key) {
                        proof {
                            assert(self.slot_ok(i as int));
                        }
                        return Some(v);
                    }
                    proof {
                        if k@ == key@ {
                            assert(self.slot_ok(i as int));
                        }
                    }
                },
            }
            proof {
                if d + 1 == n {
                    self.lemma_walk_full(h);
                }
            }
            i = if i + 1 == n {
                0
            } else {
                i + 1
            };
            proof {
                d = d + 1;
            }
        }
    }
}

} // verus!
