use vstd::prelude::*;

verus! {

use std::collections::HashMap;
use crate::Hotel;
use crate::HotelIter;
use crate::occupied_pairs;
use crate::put_model;

broadcast use vstd::std_specs::hash::group_hash_axioms;

/// What one keyed insertion does: a key already present keeps its index and
/// only has the value at that index replaced; a new key stores the value
/// through the allocator and records the association.
pub open spec fn map_insert_model<V>(
    slots: Seq<Option<V>>,
    holes: Seq<usize>,
    key_map: Map<u64, usize>,
    key: u64,
    value: V,
) -> (Seq<Option<V>>, Seq<usize>, Map<u64, usize>, usize) {
    if key_map.contains_key(key) {
        (slots.update(key_map[key] as int, Some(value)), holes, key_map, key_map[key])
    } else {
        let next = put_model(slots, holes, value);
        (next.0, next.1, key_map.insert(key, next.2), next.2)
    }
}

/// Unique-key-addressed storage over a slot allocator: an associative index
/// from caller-supplied keys to slot indices, kept consistent with the
/// allocator so that every recorded key resolves to an occupied slot.
pub struct HotelMap<V> {
    /// The values, owned by the allocator.
    pub(crate) hotel: Hotel<V>,
    /// Secondary index: caller key to slot index.
    pub(crate) map: HashMap<u64, usize>,
    /// The keys in insertion order, for iteration; no key appears twice.
    pub(crate) keys: Vec<u64>,
}

impl<V> HotelMap<V> {
    /// The allocator's slot sequence.
    pub open(crate) spec fn slots(&self) -> Seq<Option<V>> {
        self.hotel.slots()
    }

    /// The allocator's free list.
    pub open(crate) spec fn free_list(&self) -> Seq<usize> {
        self.hotel.free_list()
    }

    /// The association from keys to slot indices.
    pub open(crate) spec fn key_map(&self) -> Map<u64, usize> {
        self.map@
    }

    /// The keys, in the order they were first inserted.
    pub open(crate) spec fn key_list(&self) -> Seq<u64> {
        self.keys@
    }

    /// Well-formedness: the allocator is well-formed; every key resolves to an
    /// occupied slot; no two keys share a slot; the key list names each key of
    /// the association exactly once; and every occupied slot is owned by some
    /// key.
    pub open(crate) spec fn wf(&self) -> bool {
        &&& self.hotel.wf()
        &&& forall|k: u64|
            #[trigger] self.map@.contains_key(k) ==> self.map@[k] < self.hotel.slots().len()
                && self.hotel.slots()[self.map@[k] as int] is Some
        &&& forall|k1: u64, k2: u64|
            self.map@.contains_key(k1) && self.map@.contains_key(k2) && k1 != k2
                ==> #[trigger] self.map@[k1] != #[trigger] self.map@[k2]
        &&& self.keys@.no_duplicates()
        &&& forall|i: int|
            0 <= i < self.keys@.len() ==> self.map@.contains_key(#[trigger] self.keys@[i])
        &&& forall|k: u64| #[trigger] self.map@.contains_key(k) ==> self.keys@.contains(k)
        &&& forall|j: int|
            0 <= j < self.hotel.slots().len() && self.hotel.slots()[j] is Some ==> exists|k: u64|
                #[trigger] self.map@.contains_key(k) && self.map@[k] == j
    }

    /// Returns an empty keyed index.
    pub fn new() -> (hotel_map: Self)
        ensures
            hotel_map.wf(),
            hotel_map.slots() == Seq::<Option<V>>::empty(),
            hotel_map.free_list() == Seq::<usize>::empty(),
            hotel_map.key_map() == Map::<u64, usize>::empty(),
            hotel_map.key_list() == Seq::<u64>::empty(),
    {
        HotelMap { hotel: Hotel::new(), map: HashMap::new(), keys: Vec::new() }
    }

    /// Returns an empty keyed index; the capacity hint is forwarded to both
    /// internal stores and has no semantic effect.
    pub fn with_capacity(capacity: usize) -> (hotel_map: Self)
        ensures
            hotel_map.wf(),
            hotel_map.slots() == Seq::<Option<V>>::empty(),
            hotel_map.free_list() == Seq::<usize>::empty(),
            hotel_map.key_map() == Map::<u64, usize>::empty(),
            hotel_map.key_list() == Seq::<u64>::empty(),
    {
        HotelMap {
            hotel: Hotel::with_capacity(capacity),
            map: HashMap::with_capacity(capacity),
            keys: Vec::with_capacity(capacity),
        }
    }

    /// Returns whether `key` is present.
    pub fn contains(&self, key: u64) -> (present: bool)
        ensures
            present == self.key_map().contains_key(key),
    {
        self.map.contains_key(&key)
    }

    /// Looks up `key` and resolves its slot: returns the slot index and a
    /// reference to the value, or nothing exactly when the key is absent — a
    /// present key always resolves.
    pub fn get_by_key(&self, key: u64) -> (found: Option<(usize, &V)>)
        requires
            self.wf(),
        ensures
            match found {
                Some(p) => self.key_map().contains_key(key) && p.0 == self.key_map()[key]
                    && self.slots()[p.0 as int] == Some(*p.1),
                None => !self.key_map().contains_key(key),
            },
    {
        match self.map.get(&key) {
            Some(index) => {
                let index: usize = *index;
                match self.hotel.get(index) {
                    Some(v) => Some((index, v)),
                    None => {
                        proof {
                            assert(false);
                        }
                        None
                    },
                }
            },
            None => None,
        }
    }

    /// Returns a reference to the value at `index`, bypassing the key
    /// association; nothing when the index is out of bounds or empty.
    pub fn get_by_index(&self, index: usize) -> (value: Option<&V>)
        ensures
            match value {
                Some(v) => index < self.slots().len() && self.slots()[index as int] == Some(*v),
                None => index >= self.slots().len() || self.slots()[index as int] is None,
            },
    {
        self.hotel.get(index)
    }

    /// Stores `value` under `key` and returns the slot index: a present key
    /// keeps its index and has its value replaced in place, consuming no new
    /// slot; a new key stores the value through the allocator and records the
    /// association.
    pub fn insert(&mut self, key: u64, value: V) -> (index: usize)
        requires
            old(self).wf(),
        ensures
            final(self).wf(),
            (final(self).slots(), final(self).free_list(), final(self).key_map(), index)
                == map_insert_model(
                old(self).slots(),
                old(self).free_list(),
                old(self).key_map(),
                key,
                value,
            ),
            old(self).key_map().contains_key(key) ==> index == old(self).key_map()[key]
                && final(self).key_list() == old(self).key_list(),
            !old(self).key_map().contains_key(key) ==> final(self).key_list()
                == old(self).key_list().push(key),
    {
        let existing: Option<usize> = match self.map.get(&key) {
            Some(index) => Some(*index),
            None => None,
        };
        match existing {
            Some(index) => {
                self.hotel.overwrite(index, value);
                proof {
                    lemma_wf_after_overwrite(*old(self), *self, key, value);
                }
                index
            },
            None => {
                let index = self.hotel.put(value);
                self.map.insert(key, index);
                self.keys.push(key);
                proof {
                    lemma_wf_after_new_key(*old(self), *self, key, value, index);
                }
                index
            },
        }
    }

    /// Stores `value` under `key` only when `key` is absent, returning the new
    /// slot index exactly as `insert` would; a present key causes no mutation
    /// at all and signals rejection with nothing.
    pub fn try_insert(&mut self, key: u64, value: V) -> (index: Option<usize>)
        requires
            old(self).wf(),
        ensures
            final(self).wf(),
            old(self).key_map().contains_key(key) ==> index is None
                && final(self).slots() == old(self).slots()
                && final(self).free_list() == old(self).free_list()
                && final(self).key_map() == old(self).key_map()
                && final(self).key_list() == old(self).key_list(),
            !old(self).key_map().contains_key(key) ==> index is Some && (
            final(self).slots(),
            final(self).free_list(),
            final(self).key_map(),
            index->Some_0,
            ) == map_insert_model(
                old(self).slots(),
                old(self).free_list(),
                old(self).key_map(),
                key,
                value,
            ) && final(self).key_list() == old(self).key_list().push(key),
    {
        if self.map.contains_key(&key) {
            None
        } else {
            let index = self.hotel.put(value);
            self.map.insert(key, index);
            self.keys.push(key);
            proof {
                lemma_wf_after_new_key(*old(self), *self, key, value, index);
            }
            Some(index)
        }
    }

    /// Returns (index, reference) pairs for all occupied slots, independent of
    /// keys, in ascending index order.
    pub fn iter_values(&self) -> (pairs: Vec<(usize, &V)>)
        ensures
            pairs@.map_values(|p: (usize, &V)| (p.0, *p.1)) == occupied_pairs(self.slots()),
    {
        self.hotel.iter()
    }

    /// Returns (key, index, reference) triples, one per key, in the order the
    /// keys were first inserted.
    pub fn iter(&self) -> (entries: Vec<(u64, usize, &V)>)
        requires
            self.wf(),
        ensures
            entries@.len() == self.key_list().len(),
            forall|i: int|
                0 <= i < entries@.len() ==> (#[trigger] entries@[i]).0 == self.key_list()[i]
                    && self.key_map().contains_key(entries@[i].0) && entries@[i].1
                    == self.key_map()[entries@[i].0] && self.slots()[entries@[i].1 as int] == Some(
                    *entries@[i].2,
                ),
    {
        let mut out: Vec<(u64, usize, &V)> = Vec::new();
        let mut i: usize = 0;
        while i < self.keys.len()
            invariant
                self.wf(),
                i <= self.keys@.len(),
                out@.len() == i,
                forall|j: int|
                    0 <= j < i ==> (#[trigger] out@[j]).0 == self.key_list()[j]
                        && self.key_map().contains_key(out@[j].0)
                        && out@[j].1 == self.key_map()[out@[j].0]
                        && self.slots()[out@[j].1 as int] == Some(*out@[j].2),
            decreases self.keys@.len() - i,
        {
            let key = self.keys[i];
            match self.map.get(&key) {
                Some(index) => {
                    let index: usize = *index;
                    match self.hotel.get(index) {
                        Some(v) => {
                            out.push((key, index, v));
                        },
                        None => {
                            proof {
                                assert(false);
                            }
                        },
                    }
                },
                None => {
                    proof {
                        assert(false);
                    }
                },
            }
            i = i + 1;
        }
        out
    }

    /// Turns the keyed index into a one-shot consuming iteration over the
    /// (index, value) pairs of its occupied slots, in ascending index order;
    /// keys are not part of the iteration.
    pub fn into_iter(self) -> (iter: HotelIter<V>)
        ensures
            iter.remaining() == occupied_pairs(self.slots()),
    {
        self.hotel.into_iter()
    }
}

impl<V> Default for HotelMap<V> {
    /// Same as `new`: an empty keyed index.
    fn default() -> (hotel_map: Self)
        ensures
            hotel_map.wf(),
            hotel_map.slots() == Seq::<Option<V>>::empty(),
            hotel_map.free_list() == Seq::<usize>::empty(),
            hotel_map.key_map() == Map::<u64, usize>::empty(),
            hotel_map.key_list() == Seq::<u64>::empty(),
    {
        HotelMap::new()
    }
}

/// Replacing the value of the slot a present key maps to preserves
/// well-formedness of the keyed index.
proof fn lemma_wf_after_overwrite<V>(pre: HotelMap<V>, post: HotelMap<V>, key: u64, value: V)
    requires
        pre.wf(),
        pre.key_map().contains_key(key),
        post.hotel.wf(),
        post.slots() == pre.slots().update(pre.key_map()[key] as int, Some(value)),
        post.key_map() == pre.key_map(),
        post.key_list() == pre.key_list(),
    ensures
        post.wf(),
{
    let index = pre.key_map()[key] as int;
    assert forall|k: u64| #[trigger] post.map@.contains_key(k) implies post.map@[k]
        < post.slots().len() && post.slots()[post.map@[k] as int] is Some by {
        assert(pre.map@.contains_key(k));
    }
    assert forall|j: int|
        0 <= j < post.slots().len() && post.slots()[j] is Some implies exists|k: u64|
        #[trigger] post.map@.contains_key(k) && post.map@[k] == j by {
        if j == index {
            assert(post.map@.contains_key(key) && post.map@[key] == j);
        } else {
            assert(pre.slots()[j] is Some);
            let k = choose|k: u64| #[trigger] pre.map@.contains_key(k) && pre.map@[k] == j;
            assert(post.map@.contains_key(k) && post.map@[k] == j);
        }
    }
}

/// Recording a fresh key for a newly filled slot preserves well-formedness of
/// the keyed index.
proof fn lemma_wf_after_new_key<V>(
    pre: HotelMap<V>,
    post: HotelMap<V>,
    key: u64,
    value: V,
    index: usize,
)
    requires
        pre.wf(),
        !pre.key_map().contains_key(key),
        post.hotel.wf(),
        (post.slots(), post.free_list(), index) == put_model(
            pre.slots(),
            pre.free_list(),
            value,
        ),
        index < post.slots().len(),
        post.slots()[index as int] == Some(value),
        post.key_map() == pre.key_map().insert(key, index),
        post.key_list() == pre.key_list().push(key),
    ensures
        post.wf(),
{
    let slots0 = pre.slots();
    let holes0 = pre.free_list();
    // No old key maps to the slot the insertion filled.
    assert forall|k: u64| #[trigger] pre.map@.contains_key(k) implies pre.map@[k] != index by {
        if holes0.len() > 0 {
            assert(slots0[index as int] is None) by {
                assert(holes0[holes0.len() - 1] == index);
            }
        } else {
            pre.hotel.lemma_slots_len_bound();
            assert(index == slots0.len());
        }
    }
    // Every old key still resolves to its untouched, occupied slot.
    assert forall|k: u64| #[trigger] post.map@.contains_key(k) implies post.map@[k]
        < post.slots().len() && post.slots()[post.map@[k] as int] is Some by {
        if k != key {
            assert(pre.map@.contains_key(k));
            assert(post.slots()[pre.map@[k] as int] == slots0[pre.map@[k] as int]);
        }
    }
    // The key list stays duplicate-free: the new key was not recorded before.
    assert(!pre.keys@.contains(key));
    assert forall|i: int, j: int|
        0 <= i < post.keys@.len() && 0 <= j < post.keys@.len() && i != j implies post.keys@[i]
        != post.keys@[j] by {
        if i < pre.keys@.len() && j < pre.keys@.len() {
            assert(pre.keys@[i] == post.keys@[i] && pre.keys@[j] == post.keys@[j]);
        } else if i < pre.keys@.len() {
            assert(pre.keys@.contains(pre.keys@[i]));
        } else if j < pre.keys@.len() {
            assert(pre.keys@.contains(pre.keys@[j]));
        }
    }
    assert(post.keys@.no_duplicates());
    // The key list still names exactly the keys of the association.
    assert forall|k: u64| #[trigger] post.map@.contains_key(k) implies post.keys@.contains(k) by {
        if k == key {
            assert(post.keys@[post.keys@.len() - 1] == key);
        } else {
            assert(pre.keys@.contains(k));
            let i = choose|i: int| 0 <= i < pre.keys@.len() && pre.keys@[i] == k;
            assert(post.keys@[i] == k);
        }
    }
    // Every occupied slot is still owned by some key.
    assert forall|j: int|
        0 <= j < post.slots().len() && post.slots()[j] is Some implies exists|k: u64|
        #[trigger] post.map@.contains_key(k) && post.map@[k] == j by {
        if j == index as int {
            assert(post.map@.contains_key(key) && post.map@[key] == j);
        } else {
            assert(j < slots0.len() && slots0[j] == post.slots()[j]);
            let k = choose|k: u64| #[trigger] pre.map@.contains_key(k) && pre.map@[k] == j;
            assert(post.map@.contains_key(k) && post.map@[k] == j);
        }
    }
}

/// Law (keyed overwrite idempotence): inserting at the same key twice yields
/// the same index both times; the second insertion consumes no slot, leaves
/// the association and the free list unchanged, and changes no slot but the
/// one at that index, which afterwards holds the second value.
pub proof fn lemma_keyed_overwrite<V>(
    slots: Seq<Option<V>>,
    holes: Seq<usize>,
    key_map: Map<u64, usize>,
    key: u64,
    v1: V,
    v2: V,
)
    requires
        slots.len() <= usize::MAX,
        key_map.contains_key(key) ==> key_map[key] < slots.len(),
        holes.len() > 0 ==> holes.last() < slots.len(),
    ensures
        ({
            let first = map_insert_model(slots, holes, key_map, key, v1);
            let second = map_insert_model(first.0, first.1, first.2, key, v2);
            &&& second.3 == first.3
            &&& second.2 == first.2
            &&& second.1 == first.1
            &&& second.0 == first.0.update(first.3 as int, Some(v2))
            &&& second.0.len() == first.0.len()
            &&& forall|j: int|
                0 <= j < first.0.len() && j != first.3 ==> second.0[j] == #[trigger] first.0[j]
        }),
{
}

} // verus!
