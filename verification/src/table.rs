//! A hash table with open addressing: linear probing from the slot that the
//! key's hash names, and tombstones in the place of deleted entries.

use vstd::prelude::*;
use vstd::std_specs::cmp::PartialEqSpec;

verus! {

/// A key of a [`Table`]: a value with a hash.
pub trait Hashable {
    /// The hash of the key: a function of the key alone.
    spec fn hash_value(&self) -> u32;

    /// Computes the hash of the key: each call gives `hash_value`.
    fn hash(&self) -> (hash: u32)
        ensures
            hash == self.hash_value(),
    ;
}

struct Entry<K, V> {
    key: K,
    value: V,
}

enum Slot<K, V> {
    Tombstone,
    Full(Entry<K, V>),
}

/// The table. An entry lies in the first free slot at or after the slot
/// that its key's hash names, the slots taken as a ring.
pub struct Table<K: Hashable, V> {
    count: usize,
    capacity: usize,
    entries: Vec<Option<Slot<K, V>>>,
}

/// Whether `==` on keys is defined and means that the keys are the same.
pub open spec fn key_eq_is_identity<K: PartialEq>() -> bool {
    K::obeys_eq_spec() && forall|a: K, b: K| #[trigger] a.eq_spec(&b) <==> a == b
}

/// The steps from slot `from` to slot `to` on a ring of `cap` slots.
spec fn distance(from: int, to: int, cap: int) -> int {
    if to >= from {
        to - from
    } else {
        to + cap - from
    }
}

/// The slot that the hash of `key` names.
spec fn home<K: Hashable>(key: K, cap: int) -> int {
    key.hash_value() as int % cap
}

spec fn is_full<K, V>(slots: Seq<Option<Slot<K, V>>>, i: int) -> bool {
    0 <= i < slots.len() && slots[i] matches Some(Slot::Full(_))
}

spec fn key_at<K, V>(slots: Seq<Option<Slot<K, V>>>, i: int) -> K {
    slots[i]->Some_0->Full_0.key
}

spec fn value_at<K, V>(slots: Seq<Option<Slot<K, V>>>, i: int) -> V {
    slots[i]->Some_0->Full_0.value
}

/// Whether slot `i` holds an entry with the key `key`.
spec fn holds<K, V>(slots: Seq<Option<Slot<K, V>>>, i: int, key: K) -> bool {
    is_full(slots, i) && key_at(slots, i) == key
}

/// Whether slot `j` comes before slot `i` on the way from the slot that
/// `key`'s hash names.
spec fn before<K: Hashable>(key: K, j: int, i: int, cap: int) -> bool {
    distance(home(key, cap), j, cap) < distance(home(key, cap), i, cap)
}

/// Whether no slot is empty on the way from an entry's home to the entry.
spec fn chained<K: Hashable, V>(slots: Seq<Option<Slot<K, V>>>) -> bool {
    forall|i: int, j: int|
        is_full(slots, i) && 0 <= j < slots.len() && #[trigger] before(
            key_at(slots, i),
            j,
            i,
            slots.len() as int,
        ) ==> slots[j] is Some
}

/// Whether no two entries have the same key.
spec fn distinct<K, V>(slots: Seq<Option<Slot<K, V>>>) -> bool {
    forall|i: int, j: int|
        is_full(slots, i) && is_full(slots, j) && key_at(slots, i) == key_at(slots, j) ==> i
            == j
}

/// The number of slots among the first `n` that are not empty.
spec fn occupied<K, V>(slots: Seq<Option<Slot<K, V>>>, n: int) -> int
    decreases n,
{
    if n <= 0 {
        0
    } else {
        occupied(slots, n - 1) + if slots[n - 1] is Some {
            1int
        } else {
            0int
        }
    }
}

/// The map that the entries in the first `n` slots make.
spec fn contents_upto<K, V>(slots: Seq<Option<Slot<K, V>>>, n: int) -> Map<K, V> {
    Map::new(
        |key: K| exists|i: int| i < n && holds(slots, i, key),
        |key: K| value_at(slots, choose|i: int| i < n && holds(slots, i, key)),
    )
}

/// The map that the entries of the slots make.
spec fn contents<K, V>(slots: Seq<Option<Slot<K, V>>>) -> Map<K, V> {
    contents_upto(slots, slots.len() as int)
}

/// The entry in a slot belongs to the map of the slots up to it.
proof fn lemma_contents_at<K, V>(slots: Seq<Option<Slot<K, V>>>, n: int, i: int)
    requires
        distinct(slots),
        is_full(slots, i),
        i < n,
    ensures
        contents_upto(slots, n).dom().contains(key_at(slots, i)),
        contents_upto(slots, n)[key_at(slots, i)] == value_at(slots, i),
{
    let key = key_at(slots, i);
    assert(i < n && holds(slots, i, key));
}

/// One more slot adds its entry to the map, if it holds one.
proof fn lemma_contents_step<K, V>(slots: Seq<Option<Slot<K, V>>>, n: int)
    requires
        distinct(slots),
        0 <= n < slots.len(),
    ensures
        contents_upto(slots, n + 1) == if is_full(slots, n) {
            contents_upto(slots, n).insert(key_at(slots, n), value_at(slots, n))
        } else {
            contents_upto(slots, n)
        },
{
    let more = contents_upto(slots, n + 1);
    let fewer = contents_upto(slots, n);
    if is_full(slots, n) {
        let key = key_at(slots, n);
        let expected = fewer.insert(key, value_at(slots, n));
        assert forall|k: K| more.dom().contains(k) <==> expected.dom().contains(k) by {
            if more.dom().contains(k) {
                let i = choose|i: int| i < n + 1 && holds(slots, i, k);
                if i < n {
                    assert(i < n && holds(slots, i, k));
                }
            }
            if expected.dom().contains(k) {
                if k == key {
                    assert(n < n + 1 && holds(slots, n, k));
                } else {
                    let i = choose|i: int| i < n && holds(slots, i, k);
                    assert(i < n + 1 && holds(slots, i, k));
                }
            }
        }
        assert forall|k: K| more.dom().contains(k) implies more[k] == expected[k] by {
            let i = choose|i: int| i < n + 1 && holds(slots, i, k);
            if k != key {
                let j = choose|j: int| j < n && holds(slots, j, k);
                assert(j < n && holds(slots, j, k));
            }
        }
        assert(more =~= expected);
    } else {
        assert forall|k: K| more.dom().contains(k) <==> fewer.dom().contains(k) by {
            if more.dom().contains(k) {
                let i = choose|i: int| i < n + 1 && holds(slots, i, k);
                assert(i < n && holds(slots, i, k));
            }
            if fewer.dom().contains(k) {
                let i = choose|i: int| i < n && holds(slots, i, k);
                assert(i < n + 1 && holds(slots, i, k));
            }
        }
        assert forall|k: K| more.dom().contains(k) implies more[k] == fewer[k] by {
            let i = choose|i: int| i < n + 1 && holds(slots, i, k);
            let j = choose|j: int| j < n && holds(slots, j, k);
            assert(j < n && holds(slots, j, k));
        }
        assert(more =~= fewer);
    }
}

/// Writing an entry into the slot that holds its key, or into a slot that
/// holds no entry when no slot holds its key, puts the entry into the map
/// and keeps the keys distinct.
proof fn lemma_contents_write<K, V>(slots: Seq<Option<Slot<K, V>>>, idx: int, key: K, value: V)
    requires
        distinct(slots),
        0 <= idx < slots.len(),
        holds(slots, idx, key) || (!is_full(slots, idx) && forall|i: int| !holds(slots, i, key)),
    ensures
        distinct(slots.update(idx, Some(Slot::Full(Entry { key, value })))),
        contents(slots.update(idx, Some(Slot::Full(Entry { key, value })))) == contents(
            slots,
        ).insert(key, value),
{
    let after = slots.update(idx, Some(Slot::Full(Entry { key, value })));
    let n = slots.len() as int;
    let expected = contents(slots).insert(key, value);
    assert(holds(after, idx, key));
    assert forall|i: int, j: int|
        is_full(after, i) && is_full(after, j) && key_at(after, i) == key_at(
            after,
            j,
        ) implies i == j by {
        if i != idx && j != idx {
            assert(is_full(slots, i) && is_full(slots, j));
        } else if i != idx {
            assert(holds(slots, i, key));
        } else if j != idx {
            assert(holds(slots, j, key));
        }
    }
    assert forall|k: K| contents(after).dom().contains(k) <==> expected.dom().contains(k) by {
        if contents(after).dom().contains(k) {
            let i = choose|i: int| i < n && holds(after, i, k);
            if i != idx {
                assert(i < n && holds(slots, i, k));
            }
        }
        if expected.dom().contains(k) {
            if k == key {
                assert(idx < n && holds(after, idx, k));
            } else {
                let i = choose|i: int| i < n && holds(slots, i, k);
                assert(i < n && holds(after, i, k));
            }
        }
    }
    assert forall|k: K| contents(after).dom().contains(k) implies contents(after)[k]
        == expected[k] by {
        let i = choose|i: int| i < n && holds(after, i, k);
        if k != key {
            assert(i != idx);
            let j = choose|j: int| j < n && holds(slots, j, k);
            assert(i < n && holds(slots, i, k));
            assert(holds(slots, j, k));
        } else {
            assert(holds(after, idx, k));
        }
    }
    assert(contents(after) =~= expected);
}

/// Putting a tombstone in the place of an entry takes the entry out of the
/// map and keeps the keys distinct.
proof fn lemma_contents_delete<K, V>(slots: Seq<Option<Slot<K, V>>>, idx: int)
    requires
        distinct(slots),
        is_full(slots, idx),
    ensures
        distinct(slots.update(idx, Some(Slot::Tombstone))),
        contents(slots.update(idx, Some(Slot::Tombstone))) == contents(slots).remove(
            key_at(slots, idx),
        ),
{
    let after = slots.update(idx, Some(Slot::<K, V>::Tombstone));
    let n = slots.len() as int;
    let key = key_at(slots, idx);
    let expected = contents(slots).remove(key);
    assert forall|i: int, j: int|
        is_full(after, i) && is_full(after, j) && key_at(after, i) == key_at(
            after,
            j,
        ) implies i == j by {
        assert(is_full(slots, i) && is_full(slots, j));
    }
    assert forall|k: K| contents(after).dom().contains(k) <==> expected.dom().contains(k) by {
        if contents(after).dom().contains(k) {
            let i = choose|i: int| i < n && holds(after, i, k);
            assert(i < n && holds(slots, i, k));
            if k == key {
                assert(holds(slots, idx, k));
            }
        }
        if expected.dom().contains(k) {
            let i = choose|i: int| i < n && holds(slots, i, k);
            assert(i < n && holds(after, i, k));
        }
    }
    assert forall|k: K| contents(after).dom().contains(k) implies contents(after)[k]
        == expected[k] by {
        let i = choose|i: int| i < n && holds(after, i, k);
        let j = choose|j: int| j < n && holds(slots, j, k);
        assert(i < n && holds(slots, i, k));
        assert(holds(slots, j, k));
    }
    assert(contents(after) =~= expected);
}

/// A slot that becomes or stays taken keeps the ways to the entries free
/// of empty slots, if the way to the slot itself is free of them.
proof fn lemma_chained_write<K: Hashable, V>(
    slots: Seq<Option<Slot<K, V>>>,
    idx: int,
    key: K,
    value: V,
)
    requires
        chained(slots),
        0 <= idx < slots.len(),
        holds(slots, idx, key) || {
            &&& !is_full(slots, idx)
            &&& forall|j: int|
                0 <= j < slots.len() && #[trigger] before(key, j, idx, slots.len() as int)
                    ==> slots[j] is Some
        },
    ensures
        chained(slots.update(idx, Some(Slot::Full(Entry { key, value })))),
{
    let after = slots.update(idx, Some(Slot::Full(Entry { key, value })));
    let cap = slots.len() as int;
    assert forall|i: int, j: int|
        is_full(after, i) && 0 <= j < after.len() && #[trigger] before(
            key_at(after, i),
            j,
            i,
            after.len() as int,
        ) implies after[j] is Some by {
        if j != idx {
            if i == idx {
                if holds(slots, idx, key) {
                    assert(before(key_at(slots, idx), j, idx, cap));
                } else {
                    assert(before(key, j, idx, cap));
                }
            } else {
                assert(before(key_at(slots, i), j, i, cap));
            }
        }
    }
}

proof fn lemma_occupied_update<K, V>(
    slots: Seq<Option<Slot<K, V>>>,
    idx: int,
    slot: Option<Slot<K, V>>,
    n: int,
)
    requires
        0 <= idx < slots.len(),
        0 <= n <= slots.len(),
    ensures
        occupied(slots.update(idx, slot), n) == occupied(slots, n) + if idx < n {
            (if slot is Some {
                1int
            } else {
                0int
            }) - (if slots[idx] is Some {
                1int
            } else {
                0int
            })
        } else {
            0int
        },
    decreases n,
{
    if n > 0 {
        lemma_occupied_update(slots, idx, slot, n - 1);
    }
}

proof fn lemma_exists_empty<K, V>(slots: Seq<Option<Slot<K, V>>>, n: int)
    requires
        0 <= n <= slots.len(),
        occupied(slots, n) < n,
    ensures
        exists|i: int| 0 <= i < n && slots[i] is None,
    decreases n,
{
    if slots[n - 1] is Some {
        lemma_exists_empty(slots, n - 1);
    }
}

impl<K: Hashable, V> View for Table<K, V> {
    type V = Map<K, V>;

    closed spec fn view(&self) -> Map<K, V> {
        contents(self.entries@)
    }
}

impl<K: Hashable + PartialEq + Copy, V> Table<K, V> {
    /// What holds of a table: no slot is empty on the way from an entry's
    /// home to the entry, no two entries have the same key, and at most
    /// three quarters of the slots are taken.
    pub closed spec fn wf(&self) -> bool {
        &&& self.capacity == self.entries@.len()
        &&& (self.capacity == 0 || self.capacity >= 8)
        &&& chained(self.entries@)
        &&& distinct(self.entries@)
        &&& occupied(self.entries@, self.capacity as int) <= self.count
        &&& 4 * self.count <= 3 * self.capacity
    }

    /// The number of slots.
    pub closed spec fn slots(&self) -> nat {
        self.capacity as nat
    }

    /// Whether one more entry would take more than three quarters of the
    /// slots, the slots that hold a tombstone counted as taken.
    pub closed spec fn crowded(&self) -> bool {
        4 * (self.count + 1) > 3 * self.capacity
    }

    /// An empty table, without a slot.
    pub fn new() -> (table: Self)
        ensures
            table.wf(),
            table@ == Map::<K, V>::empty(),
            table.slots() == 0,
    {
        let table = Table { count: 0, capacity: 0, entries: Vec::new() };
        proof {
            assert(table@ =~= Map::<K, V>::empty());
        }
        table
    }

    /// The number of slots.
    pub fn capacity(&self) -> (capacity: usize)
        ensures
            capacity == self.slots(),
    {
        self.capacity
    }

    /// Puts the value `value` under the key `key`, in the place of the
    /// value that was there if there was one. The result says whether the
    /// key is new. The table grows first, to eight slots and then to twice
    /// as many, if one more entry would take more than three quarters of the
    /// slots, whether the key is new or not.
    pub fn set(&mut self, key: &K, value: V) -> (is_new: bool)
        requires
            old(self).wf(),
            key_eq_is_identity::<K>(),
            old(self).slots() <= usize::MAX / 2,
        ensures
            final(self).wf(),
            final(self)@ == old(self)@.insert(*key, value),
            is_new == !old(self)@.dom().contains(*key),
            final(self).slots() == if !old(self).crowded() {
                old(self).slots()
            } else if old(self).slots() < 8 {
                8
            } else {
                2 * old(self).slots()
            },
    {
        if self.count + 1 > self.capacity - (self.capacity + 3) / 4 {
            let capacity = if self.capacity < 8 {
                8
            } else {
                self.capacity * 2
            };
            self.grow_capacity(capacity);
        }
        proof {
            lemma_exists_empty(self.entries@, self.capacity as int);
        }
        let index = Self::find_entry_idx(&self.entries, self.capacity, key);
        let is_new = self.entries[index].is_none();
        let is_tombstone = match &self.entries[index] {
            Some(Slot::Tombstone) => true,
            _ => false,
        };
        proof {
            lemma_contents_write(self.entries@, index as int, *key, value);
            lemma_chained_write(self.entries@, index as int, *key, value);
            lemma_occupied_update(
                self.entries@,
                index as int,
                Some(Slot::Full(Entry { key: *key, value })),
                self.capacity as int,
            );
            if !is_new && !is_tombstone {
                lemma_contents_at(self.entries@, self.capacity as int, index as int);
            }
        }
        self.entries[index] = Some(Slot::Full(Entry { key: *key, value }));
        if is_new {
            self.count += 1;
        }
        is_new || is_tombstone
    }

    /// The value under the key `key`, if there is one.
    pub fn get(&self, key: &K) -> (value: Option<&V>)
        requires
            self.wf(),
            key_eq_is_identity::<K>(),
        ensures
            match value {
                Some(value) => self@.dom().contains(*key) && *value == self@[*key],
                None => !self@.dom().contains(*key),
            },
    {
        if self.capacity == 0 {
            return None;
        }
        proof {
            lemma_exists_empty(self.entries@, self.capacity as int);
        }
        let idx = Self::find_entry_idx(&self.entries, self.capacity, key);
        match &self.entries[idx] {
            Some(Slot::Full(entry)) => {
                proof {
                    lemma_contents_at(self.entries@, self.capacity as int, idx as int);
                }
                Some(&entry.value)
            },
            None => None,
            Some(Slot::Tombstone) => None,
        }
    }

    /// Takes the entry with the key `key` out of the table, and leaves a
    /// tombstone in its slot. The result says whether there was one.
    pub fn delete(&mut self, key: &K) -> (existed: bool)
        requires
            old(self).wf(),
            key_eq_is_identity::<K>(),
        ensures
            final(self).wf(),
            final(self)@ == old(self)@.remove(*key),
            existed == old(self)@.dom().contains(*key),
            final(self).slots() == old(self).slots(),
    {
        if self.capacity == 0 {
            proof {
                assert(self@.remove(*key) =~= self@);
            }
            return false;
        }
        proof {
            lemma_exists_empty(self.entries@, self.capacity as int);
        }
        let idx = Self::find_entry_idx(&self.entries, self.capacity, key);
        let exists = match &self.entries[idx] {
            Some(Slot::Full(_)) => true,
            _ => false,
        };
        if exists {
            proof {
                lemma_contents_at(self.entries@, self.capacity as int, idx as int);
                lemma_contents_delete(self.entries@, idx as int);
                lemma_occupied_update(
                    self.entries@,
                    idx as int,
                    Some(Slot::Tombstone),
                    self.capacity as int,
                );
                let after = self.entries@.update(idx as int, Some(Slot::<K, V>::Tombstone));
                assert forall|i: int, j: int|
                    is_full(after, i) && 0 <= j < after.len() && #[trigger] before(
                        key_at(after, i),
                        j,
                        i,
                        after.len() as int,
                    ) implies after[j] is Some by {
                    assert(before(key_at(self.entries@, i), j, i, self.capacity as int));
                }
            }
            self.entries[idx] = Some(Slot::Tombstone);
        } else {
            proof {
                assert(self@.remove(*key) =~= self@);
            }
        }
        exists
    }

    /// Moves the entries into a new vector of `capacity` slots, and leaves
    /// the tombstones behind.
    fn grow_capacity(&mut self, capacity: usize)
        requires
            old(self).wf(),
            key_eq_is_identity::<K>(),
            capacity >= 8,
            capacity >= 2 * old(self).capacity,
        ensures
            final(self).wf(),
            final(self)@ == old(self)@,
            final(self).capacity == capacity,
            final(self).count <= old(self).capacity,
    {
        let mut entries: Vec<Option<Slot<K, V>>> = Vec::new();
        let mut n: usize = 0;
        while n < capacity
            invariant
                n <= capacity,
                entries@.len() == n,
                forall|i: int| 0 <= i < n ==> (#[trigger] entries@[i]) is None,
            decreases capacity - n,
        {
            entries.push(None);
            n += 1;
        }
        let ghost before_slots = self.entries@;
        let mut count: usize = 0;
        let mut i: usize = 0;
        proof {
            lemma_occupied_none(entries@, capacity as int);
            lemma_empty_slots(entries@);
            assert(contents_upto(before_slots, 0) =~= Map::<K, V>::empty());
        }
        while i < self.capacity
            invariant
                key_eq_is_identity::<K>(),
                self.capacity == old(self).capacity,
                self.count == old(self).count,
                self.entries@.len() == self.capacity,
                before_slots == old(self).entries@,
                before_slots.len() == self.capacity,
                distinct(before_slots),
                forall|j: int| i <= j < self.capacity ==> self.entries@[j] == before_slots[j],
                i <= self.capacity,
                capacity >= 8,
                capacity >= 2 * self.capacity,
                entries@.len() == capacity,
                chained(entries@),
                distinct(entries@),
                occupied(entries@, capacity as int) <= count <= i,
                contents(entries@) == contents_upto(before_slots, i as int),
            decreases self.capacity - i,
        {
            proof {
                lemma_contents_step(before_slots, i as int);
            }
            if let Some(slot) = self.entries[i].take() {
                match slot {
                    Slot::Full(entry) => {
                        proof {
                            lemma_exists_empty(entries@, capacity as int);
                            assert(before_slots[i as int] == Some(Slot::Full(entry)));
                            assert(holds(before_slots, i as int, entry.key));
                            assert forall|j: int| !holds(entries@, j, entry.key) by {
                                if holds(entries@, j, entry.key) {
                                    lemma_contents_at(entries@, capacity as int, j);
                                    let k = choose|k: int|
                                        k < i && holds(before_slots, k, entry.key);
                                    assert(holds(before_slots, i as int, entry.key));
                                }
                            }
                        }
                        let idx = Self::find_entry_idx(&entries, capacity, &entry.key);
                        proof {
                            lemma_contents_write(entries@, idx as int, entry.key, entry.value);
                            lemma_chained_write(entries@, idx as int, entry.key, entry.value);
                            lemma_occupied_update(
                                entries@,
                                idx as int,
                                Some(Slot::Full(entry)),
                                capacity as int,
                            );
                        }
                        entries[idx] = Some(Slot::Full(entry));
                        count += 1;
                    },
                    Slot::Tombstone => {},
                }
            }
            i += 1;
        }
        self.entries = entries;
        self.capacity = capacity;
        self.count = count;
    }

    /// The slot of the entry with the key `key`, or else the slot in which
    /// such an entry is to lie: the first tombstone on the way from the
    /// key's home, or the empty slot at which the way ends.
    fn find_entry_idx(entries: &Vec<Option<Slot<K, V>>>, capacity: usize, key: &K) -> (index:
        usize)
        requires
            key_eq_is_identity::<K>(),
            capacity == entries@.len(),
            chained(entries@),
            exists|e: int| 0 <= e < entries@.len() && entries@[e] is None,
        ensures
            index < capacity,
            holds(entries@, index as int, *key) || {
                &&& !(entries@[index as int] matches Some(Slot::Full(_)))
                &&& forall|i: int| !holds(entries@, i, *key)
                &&& forall|j: int|
                    0 <= j < capacity && #[trigger] before(*key, j, index as int, capacity as int)
                        ==> entries@[j] is Some
            },
    {
        let ghost cap = capacity as int;
        let ghost empty = choose|e: int| 0 <= e < entries@.len() && entries@[e] is None;
        let ghost start = home(*key, cap);
        let mut index: usize = (key.hash() as usize) % capacity;
        let mut tombstone_idx: Option<usize> = None;
        let ghost mut steps: int = 0;
        loop
            invariant
                key_eq_is_identity::<K>(),
                cap == capacity == entries@.len(),
                chained(entries@),
                0 <= empty < cap,
                entries@[empty] is None,
                start == home(*key, cap),
                0 <= start < cap,
                index < capacity,
                0 <= steps == distance(start, index as int, cap) <= distance(start, empty, cap),
                forall|j: int|
                    0 <= j < cap && distance(start, j, cap) < steps ==> (#[trigger] entries@[j])
                        is Some && !holds(entries@, j, *key),
                match tombstone_idx {
                    Some(t) => {
                        &&& t < capacity
                        &&& entries@[t as int] matches Some(Slot::Tombstone)
                        &&& distance(start, t as int, cap) < steps
                        &&& forall|j: int|
                            0 <= j < cap && distance(start, j, cap) < distance(
                                start,
                                t as int,
                                cap,
                            ) ==> !(#[trigger] entries@[j] matches Some(Slot::Tombstone))
                    },
                    None => forall|j: int|
                        0 <= j < cap && distance(start, j, cap) < steps ==> !(
                        #[trigger] entries@[j] matches Some(Slot::Tombstone)),
                },
            decreases distance(start, empty, cap) - steps,
        {
            match &entries[index] {
                None => {
                    let found = match tombstone_idx {
                        Some(idx) => idx,
                        None => index,
                    };
                    proof {
                        assert forall|i: int| !holds(entries@, i, *key) by {
                            if holds(entries@, i, *key) {
                                if distance(start, i, cap) >= steps {
                                    assert(before(key_at(entries@, i), index as int, i, cap));
                                }
                            }
                        }
                        assert forall|j: int|
                            0 <= j < capacity && #[trigger] before(
                                *key,
                                j,
                                found as int,
                                capacity as int,
                            ) implies entries@[j] is Some by {
                            assert(distance(start, j, cap) < steps);
                        }
                    }
                    return found;
                },
                Some(Slot::Full(entry)) => {
                    if entry.key == *key {
                        return index;
                    }
                },
                Some(Slot::Tombstone) => {
                    if tombstone_idx.is_none() {
                        tombstone_idx = Some(index);
                    }
                },
            }
            index = if index + 1 == capacity {
                0
            } else {
                index + 1
            };
            proof {
                steps = steps + 1;
            }
        }
    }
}

proof fn lemma_occupied_none<K, V>(slots: Seq<Option<Slot<K, V>>>, n: int)
    requires
        0 <= n <= slots.len(),
        forall|i: int| 0 <= i < n ==> (#[trigger] slots[i]) is None,
    ensures
        occupied(slots, n) == 0,
    decreases n,
{
    if n > 0 {
        lemma_occupied_none(slots, n - 1);
    }
}

proof fn lemma_empty_slots<K: Hashable, V>(slots: Seq<Option<Slot<K, V>>>)
    requires
        forall|i: int| 0 <= i < slots.len() ==> (#[trigger] slots[i]) is None,
    ensures
        chained(slots),
        distinct(slots),
        contents(slots) == Map::<K, V>::empty(),
{
    assert(contents(slots) =~= Map::<K, V>::empty());
}

} // verus!
