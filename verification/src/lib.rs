use vstd::prelude::*;

mod hotel_map;

pub use hotel_map::HotelMap;
pub use hotel_map::lemma_keyed_overwrite;
pub use hotel_map::map_insert_model;

verus! {

/// What one insertion does to the allocator state: if any freed index is
/// available, the most recently freed one is filled with the value and
/// returned; otherwise the value is appended at the current length.
pub open spec fn put_model<T>(floor: Seq<Option<T>>, holes: Seq<usize>, value: T) -> (
    Seq<Option<T>>,
    Seq<usize>,
    usize,
) {
    if holes.len() > 0 {
        (floor.update(holes.last() as int, Some(value)), holes.drop_last(), holes.last())
    } else {
        (floor.push(Some(value)), holes, floor.len() as usize)
    }
}

/// What one removal does to the allocator state: a valid, occupied index is
/// emptied and pushed onto the free list and its value handed back; any other
/// index leaves the state unchanged and hands back nothing.
pub open spec fn take_model<T>(floor: Seq<Option<T>>, holes: Seq<usize>, key: usize) -> (
    Seq<Option<T>>,
    Seq<usize>,
    Option<T>,
) {
    if key < floor.len() && floor[key as int] is Some {
        (floor.update(key as int, None), holes.push(key), floor[key as int])
    } else {
        (floor, holes, None)
    }
}

/// The values of the occupied slots of `floor` at indices `from` and above, in
/// ascending index order.
pub open spec fn occupied_values_from<T>(floor: Seq<Option<T>>, from: int) -> Seq<T>
    decreases floor.len() - from,
{
    if from < 0 || from >= floor.len() {
        Seq::empty()
    } else {
        match floor[from] {
            Some(v) => seq![v] + occupied_values_from(floor, from + 1),
            None => occupied_values_from(floor, from + 1),
        }
    }
}

/// The values of all occupied slots of `floor`, in ascending index order.
pub open spec fn occupied_values<T>(floor: Seq<Option<T>>) -> Seq<T> {
    occupied_values_from(floor, 0)
}

/// The (index, value) pairs of the occupied slots of `floor` at indices `from`
/// and above, in ascending index order.
pub open spec fn occupied_pairs_from<T>(floor: Seq<Option<T>>, from: int) -> Seq<(usize, T)>
    decreases floor.len() - from,
{
    if from < 0 || from >= floor.len() {
        Seq::empty()
    } else {
        match floor[from] {
            Some(v) => seq![(from as usize, v)] + occupied_pairs_from(floor, from + 1),
            None => occupied_pairs_from(floor, from + 1),
        }
    }
}

/// The (index, value) pairs of all occupied slots of `floor`, in ascending
/// index order.
pub open spec fn occupied_pairs<T>(floor: Seq<Option<T>>) -> Seq<(usize, T)> {
    occupied_pairs_from(floor, 0)
}

/// A slot allocator: a growable sequence of optional values together with a
/// stack of freed indices. Insertion hands out a stable integer index for each
/// stored value, reusing the most recently freed index before growing.
pub struct Hotel<T> {
    /// Backing storage: one cell per index ever issued.
    floor: Vec<Option<T>>,
    /// Indices of currently empty cells, used as a stack:
    /// the last index freed is the first to be reused.
    holes: Vec<usize>,
}

impl<T> Hotel<T> {
    /// The sequence of slots, each either occupied by a value or empty.
    pub open(crate) spec fn slots(&self) -> Seq<Option<T>> {
        self.floor@
    }

    /// The indices currently free for reuse, in the order they were freed.
    pub open(crate) spec fn free_list(&self) -> Seq<usize> {
        self.holes@
    }

    /// Well-formedness: the free list holds exactly the empty slots, each once.
    pub open(crate) spec fn wf(&self) -> bool {
        &&& forall|i: int|
            0 <= i < self.holes@.len() ==> (#[trigger] self.holes@[i]) < self.floor@.len()
                && self.floor@[self.holes@[i] as int] is None
        &&& self.holes@.no_duplicates()
        &&& forall|j: int|
            0 <= j < self.floor@.len() && self.floor@[j] is None ==> self.holes@.contains(
                j as usize,
            )
    }

    /// The slot sequence is backed by real storage, so its length fits the
    /// machine's word.
    pub proof fn lemma_slots_len_bound(&self)
        ensures
            self.slots().len() <= usize::MAX,
    {
        assert(self.floor.len() == self.floor@.len());
    }

    /// Returns an empty allocator.
    pub fn new() -> (hotel: Self)
        ensures
            hotel.wf(),
            hotel.slots() == Seq::<Option<T>>::empty(),
            hotel.free_list() == Seq::<usize>::empty(),
    {
        Hotel { floor: Vec::new(), holes: Vec::new() }
    }

    /// Returns an empty allocator; the capacity hint only pre-reserves backing
    /// storage and has no semantic effect.
    pub fn with_capacity(capacity: usize) -> (hotel: Self)
        ensures
            hotel.wf(),
            hotel.slots() == Seq::<Option<T>>::empty(),
            hotel.free_list() == Seq::<usize>::empty(),
    {
        Hotel { floor: Vec::with_capacity(capacity), holes: Vec::new() }
    }

    /// Stores `value` and returns its index. The most recently freed index is
    /// reused first; only when no freed index exists does the storage grow.
    pub fn put(&mut self, value: T) -> (index: usize)
        requires
            old(self).wf(),
        ensures
            final(self).wf(),
            (final(self).slots(), final(self).free_list(), index) == put_model(
                old(self).slots(),
                old(self).free_list(),
                value,
            ),
            index < final(self).slots().len(),
            final(self).slots()[index as int] == Some(value),
            old(self).free_list().len() == 0 ==> index == old(self).slots().len(),
            old(self).free_list().len() > 0 ==> index == old(self).free_list().last(),
    {
        match self.holes.pop() {
            Some(index) => {
                proof {
                    assert(old(self).holes@[old(self).holes@.len() - 1] == index);
                }
                self.floor[index] = Some(value);
                proof {
                    assert(old(self).floor@.len() <= usize::MAX) by {
                        assert(old(self).floor.len() == old(self).floor@.len());
                    }
                    lemma_put_reuse_wf(old(self).floor@, old(self).holes@, value);
                }
                index
            },
            None => {
                let index = self.floor.len();
                self.floor.push(Some(value));
                index
            },
        }
    }

    /// Returns a reference to the value at `key`, or nothing when `key` is out
    /// of bounds or its slot is empty. No mutation.
    pub fn get(&self, key: usize) -> (value: Option<&T>)
        ensures
            match value {
                Some(v) => key < self.slots().len() && self.slots()[key as int] == Some(*v),
                None => key >= self.slots().len() || self.slots()[key as int] is None,
            },
    {
        if key < self.floor.len() {
            match &self.floor[key] {
                Some(v) => Some(v),
                None => None,
            }
        } else {
            None
        }
    }

    /// Removes and returns the value at `key`, marking the slot empty and
    /// pushing `key` onto the free list; returns nothing (and changes nothing)
    /// when `key` is out of bounds or already empty.
    pub fn take(&mut self, key: usize) -> (removed: Option<T>)
        requires
            old(self).wf(),
        ensures
            final(self).wf(),
            (final(self).slots(), final(self).free_list(), removed) == take_model(
                old(self).slots(),
                old(self).free_list(),
                key,
            ),
            match removed {
                Some(v) => key < old(self).slots().len() && old(self).slots()[key as int] == Some(v)
                    && final(self).slots() == old(self).slots().update(key as int, None)
                    && final(self).free_list() == old(self).free_list().push(key),
                None => (key >= old(self).slots().len() || old(self).slots()[key as int] is None)
                    && final(self).slots() == old(self).slots() && final(self).free_list() == old(
                    self,
                ).free_list(),
            },
    {
        if key < self.floor.len() && self.floor[key].is_some() {
            let removed = self.floor[key].take();
            self.holes.push(key);
            proof {
                lemma_take_wf(old(self).floor@, old(self).holes@, key);
            }
            removed
        } else {
            None
        }
    }

    /// Removes and returns the value at `key`, or reports the one failure kind
    /// of this library when `key` is out of bounds or already empty. Same
    /// operation as `take`, with an error channel instead of an option.
    pub fn remove(&mut self, key: usize) -> (result: Result<T, ()>)
        requires
            old(self).wf(),
        ensures
            final(self).wf(),
            match result {
                Ok(v) => take_model(old(self).slots(), old(self).free_list(), key) == (
                    final(self).slots(),
                    final(self).free_list(),
                    Some(v),
                ),
                Err(e) => (key >= old(self).slots().len() || old(self).slots()[key as int] is None)
                    && final(self).slots() == old(self).slots() && final(self).free_list() == old(
                    self,
                ).free_list(),
            },
    {
        match self.take(key) {
            Some(v) => Ok(v),
            None => Err(()),
        }
    }

    /// Replaces the value of the occupied slot at `index`, in place: no new
    /// slot is consumed and the free list is untouched.
    pub(crate) fn overwrite(&mut self, index: usize, value: T)
        requires
            old(self).wf(),
            index < old(self).slots().len(),
            old(self).slots()[index as int] is Some,
        ensures
            final(self).wf(),
            final(self).slots() == old(self).slots().update(index as int, Some(value)),
            final(self).free_list() == old(self).free_list(),
    {
        self.floor[index] = Some(value);
        proof {
            assert forall|i: int|
                0 <= i < self.holes@.len() implies (#[trigger] self.holes@[i])
                < self.floor@.len() && self.floor@[self.holes@[i] as int] is None by {
                assert(old(self).holes@[i] == self.holes@[i]);
            }
        }
    }

    /// Returns references to the values of all occupied slots, in ascending
    /// index order. No mutation: the same call can be made again.
    pub fn values(&self) -> (values: Vec<&T>)
        ensures
            values@.map_values(|v: &T| *v) == occupied_values(self.slots()),
    {
        let ghost floor = self.slots();
        let mut out: Vec<&T> = Vec::new();
        let mut i: usize = 0;
        while i < self.floor.len()
            invariant
                i <= self.floor.len(),
                floor == self.slots(),
                occupied_values(floor) == out@.map_values(|v: &T| *v) + occupied_values_from(
                    floor,
                    i as int,
                ),
            decreases self.floor.len() - i,
        {
            match &self.floor[i] {
                Some(v) => {
                    let ghost prefix = out@.map_values(|v: &T| *v);
                    out.push(v);
                    proof {
                        assert(out@.map_values(|v: &T| *v) =~= prefix + seq![*v]);
                        assert(prefix + (seq![*v] + occupied_values_from(floor, i + 1)) =~= (prefix
                            + seq![*v]) + occupied_values_from(floor, i + 1));
                    }
                },
                None => {},
            }
            i = i + 1;
        }
        proof {
            assert(occupied_values(floor) =~= out@.map_values(|v: &T| *v));
        }
        out
    }

    /// Returns (index, reference) pairs for all occupied slots, in ascending
    /// index order. No mutation: the same call can be made again.
    pub fn iter(&self) -> (pairs: Vec<(usize, &T)>)
        ensures
            pairs@.map_values(|p: (usize, &T)| (p.0, *p.1)) == occupied_pairs(self.slots()),
    {
        let ghost floor = self.slots();
        let mut out: Vec<(usize, &T)> = Vec::new();
        let mut i: usize = 0;
        while i < self.floor.len()
            invariant
                i <= self.floor.len(),
                floor == self.slots(),
                occupied_pairs(floor) == out@.map_values(|p: (usize, &T)| (p.0, *p.1))
                    + occupied_pairs_from(floor, i as int),
            decreases self.floor.len() - i,
        {
            match &self.floor[i] {
                Some(v) => {
                    let ghost prefix = out@.map_values(|p: (usize, &T)| (p.0, *p.1));
                    out.push((i, v));
                    proof {
                        assert(out@.map_values(|p: (usize, &T)| (p.0, *p.1)) =~= prefix + seq![
                            (i, *v),
                        ]);
                        assert(prefix + (seq![(i, *v)] + occupied_pairs_from(floor, i + 1)) =~= (
                        prefix + seq![(i, *v)]) + occupied_pairs_from(floor, i + 1));
                    }
                },
                None => {},
            }
            i = i + 1;
        }
        proof {
            assert(occupied_pairs(floor) =~= out@.map_values(|p: (usize, &T)| (p.0, *p.1)));
        }
        out
    }

    /// Turns the allocator into a one-shot consuming iteration over the
    /// (index, value) pairs of its occupied slots, in ascending index order.
    pub fn into_iter(self) -> (iter: HotelIter<T>)
        ensures
            iter.remaining() == occupied_pairs(self.slots()),
    {
        HotelIter { floor: self.floor, cursor: 0 }
    }
}

/// A one-shot consuming iteration over the occupied slots of a `Hotel`: each
/// step hands out the next (index, value) pair in ascending index order,
/// transferring ownership of the value.
pub struct HotelIter<T> {
    floor: Vec<Option<T>>,
    cursor: usize,
}

impl<T> HotelIter<T> {
    /// The (index, value) pairs this iteration has yet to produce, in the
    /// order it will produce them.
    pub open(crate) spec fn remaining(&self) -> Seq<(usize, T)> {
        occupied_pairs_from(self.floor@, self.cursor as int)
    }

    /// Produces the next (index, value) pair of the iteration, taking the
    /// value out of its slot, or nothing once no occupied slot is left.
    pub fn next(&mut self) -> (item: Option<(usize, T)>)
        ensures
            match item {
                Some(p) => old(self).remaining().len() > 0 && p == old(self).remaining()[0]
                    && final(self).remaining() == old(self).remaining().drop_first(),
                None => old(self).remaining().len() == 0 && final(self).remaining() == Seq::<
                    (usize, T),
                >::empty(),
            },
    {
        let ghost floor0 = self.floor@;
        let ghost cursor0 = self.cursor as int;
        while self.cursor < self.floor.len()
            invariant
                cursor0 <= self.cursor,
                self.floor@ == floor0,
                old(self).remaining() == occupied_pairs_from(floor0, cursor0),
                occupied_pairs_from(floor0, self.cursor as int) == occupied_pairs_from(
                    floor0,
                    cursor0,
                ),
            decreases self.floor@.len() - self.cursor,
        {
            let cursor = self.cursor;
            self.cursor = cursor + 1;
            if self.floor[cursor].is_some() {
                let value = self.floor[cursor].take();
                proof {
                    let rem0 = occupied_pairs_from(floor0, cursor0);
                    let v0 = floor0[cursor as int]->Some_0;
                    let rest = occupied_pairs_from(floor0, cursor as int + 1);
                    lemma_occupied_pairs_from_update_below(floor0, cursor as int, cursor as int + 1);
                    assert(rem0 == seq![(cursor, v0)] + rest);
                    assert(rem0[0] == (cursor, v0));
                    assert(rem0.drop_first() =~= rest);
                }
                return Some((cursor, value.unwrap()));
            }
        }
        None
    }
}

impl<T> Default for Hotel<T> {
    /// Same as `new`: an empty allocator.
    fn default() -> (hotel: Self)
        ensures
            hotel.wf(),
            hotel.slots() == Seq::<Option<T>>::empty(),
            hotel.free_list() == Seq::<usize>::empty(),
    {
        Hotel::new()
    }
}

/// The indices handed out by a sequence of insertions, first insertion first.
pub open spec fn puts_indices<T>(floor: Seq<Option<T>>, holes: Seq<usize>, values: Seq<T>) -> Seq<
    usize,
>
    decreases values.len(),
{
    if values.len() == 0 {
        Seq::empty()
    } else {
        let next = put_model(floor, holes, values[0]);
        seq![next.2] + puts_indices(next.0, next.1, values.drop_first())
    }
}

/// The allocator state after a sequence of removals, performed first to last.
pub open spec fn takes_state<T>(floor: Seq<Option<T>>, holes: Seq<usize>, frees: Seq<usize>) -> (
    Seq<Option<T>>,
    Seq<usize>,
)
    decreases frees.len(),
{
    if frees.len() == 0 {
        (floor, holes)
    } else {
        let next = take_model(floor, holes, frees[0]);
        takes_state(next.0, next.1, frees.drop_first())
    }
}

/// Each index of `frees` is still occupied at the moment it is freed.
pub open spec fn frees_live<T>(floor: Seq<Option<T>>, frees: Seq<usize>) -> bool
    decreases frees.len(),
{
    frees.len() == 0 || {
        &&& frees[0] < floor.len()
        &&& floor[frees[0] as int] is Some
        &&& frees_live(floor.update(frees[0] as int, None), frees.drop_first())
    }
}

/// Law (sequential assignment): with no freed index available, successive
/// insertions are assigned the consecutive indices `len, len + 1, ...`; from a
/// fresh allocator, inserting N values yields the indices `0, 1, ..., N - 1`
/// in insertion order.
pub proof fn lemma_sequential_assignment<T>(floor: Seq<Option<T>>, values: Seq<T>)
    requires
        floor.len() + values.len() <= usize::MAX,
    ensures
        puts_indices(floor, Seq::empty(), values).len() == values.len(),
        forall|j: int|
            0 <= j < values.len() ==> #[trigger] puts_indices(floor, Seq::empty(), values)[j]
                == floor.len() + j,
    decreases values.len(),
{
    if values.len() > 0 {
        let floor1 = floor.push(Some(values[0]));
        lemma_sequential_assignment(floor1, values.drop_first());
        let out = puts_indices(floor, Seq::empty(), values);
        let rest = puts_indices(floor1, Seq::empty(), values.drop_first());
        assert(out == seq![floor.len() as usize] + rest);
        assert forall|j: int| 0 <= j < values.len() implies #[trigger] out[j] == floor.len()
            + j by {
            if j > 0 {
                assert(out[j] == rest[j - 1]);
                assert(rest[j - 1] == floor1.len() + (j - 1));
            }
        }
    }
}

/// Law (LIFO reuse, core): as long as freed indices are available, successive
/// insertions reuse them from the most recently freed one backwards.
pub proof fn lemma_lifo_reuse<T>(floor: Seq<Option<T>>, holes: Seq<usize>, values: Seq<T>)
    requires
        values.len() <= holes.len(),
    ensures
        puts_indices(floor, holes, values).len() == values.len(),
        forall|j: int|
            0 <= j < values.len() ==> #[trigger] puts_indices(floor, holes, values)[j]
                == holes[holes.len() - 1 - j],
    decreases values.len(),
{
    if values.len() > 0 {
        let floor1 = floor.update(holes.last() as int, Some(values[0]));
        let holes1 = holes.drop_last();
        lemma_lifo_reuse(floor1, holes1, values.drop_first());
        let out = puts_indices(floor, holes, values);
        let rest = puts_indices(floor1, holes1, values.drop_first());
        assert(out == seq![holes.last()] + rest);
        assert forall|j: int| 0 <= j < values.len() implies #[trigger] out[j] == holes[holes.len()
            - 1 - j] by {
            if j > 0 {
                assert(out[j] == rest[j - 1]);
                assert(rest[j - 1] == holes1[holes1.len() - 1 - (j - 1)]);
            }
        }
    }
}

/// Freeing live indices in sequence pushes exactly that sequence onto the
/// free list, in order.
pub proof fn lemma_takes_push_frees<T>(floor: Seq<Option<T>>, holes: Seq<usize>, frees: Seq<usize>)
    requires
        frees_live(floor, frees),
    ensures
        takes_state(floor, holes, frees).1 == holes + frees,
    decreases frees.len(),
{
    if frees.len() == 0 {
        assert(holes + frees =~= holes);
    } else {
        let floor1 = floor.update(frees[0] as int, None);
        let holes1 = holes.push(frees[0]);
        lemma_takes_push_frees(floor1, holes1, frees.drop_first());
        assert(holes1 + frees.drop_first() =~= holes + frees);
    }
}

/// Law (LIFO reuse): after indices `i1, ..., ik` — each still occupied at the
/// moment it is freed — are freed in that order, the next `k` insertions
/// yield exactly the reverse order `ik, ..., i1`.
pub proof fn lemma_free_then_reuse<T>(
    floor: Seq<Option<T>>,
    holes: Seq<usize>,
    frees: Seq<usize>,
    values: Seq<T>,
)
    requires
        frees_live(floor, frees),
        values.len() == frees.len(),
    ensures
        ({
            let state = takes_state(floor, holes, frees);
            let out = puts_indices(state.0, state.1, values);
            &&& out.len() == values.len()
            &&& forall|j: int|
                0 <= j < values.len() ==> #[trigger] out[j] == frees[frees.len() - 1 - j]
        }),
{
    let state = takes_state(floor, holes, frees);
    lemma_takes_push_frees(floor, holes, frees);
    lemma_lifo_reuse(state.0, holes + frees, values);
    let out = puts_indices(state.0, state.1, values);
    assert forall|j: int| 0 <= j < values.len() implies #[trigger] out[j] == frees[frees.len() - 1
        - j] by {
        assert(out[j] == (holes + frees)[(holes + frees).len() - 1 - j]);
        assert((holes + frees)[holes.len() + (frees.len() - 1 - j)] == frees[frees.len() - 1 - j]);
    }
}

/// Law (lookup correctness, stability): an insertion never disturbs an
/// occupied slot — it only fills an empty one or appends a new one.
pub proof fn lemma_put_preserves_occupied<T>(
    floor: Seq<Option<T>>,
    holes: Seq<usize>,
    value: T,
    i: int,
)
    requires
        0 <= i < floor.len(),
        floor[i] is Some,
        holes.len() > 0 ==> holes.last() < floor.len() && floor[holes.last() as int] is None,
    ensures
        i < put_model(floor, holes, value).0.len(),
        put_model(floor, holes, value).0[i] == floor[i],
{
}

/// Law (lookup correctness, stability): removing one index never disturbs any
/// other slot.
pub proof fn lemma_take_preserves_other<T>(floor: Seq<Option<T>>, holes: Seq<usize>, key: usize, i: int)
    requires
        0 <= i < floor.len(),
        i != key,
    ensures
        take_model(floor, holes, key).0.len() == floor.len(),
        take_model(floor, holes, key).0[i] == floor[i],
{
}

/// Law (removal is one-shot): whatever a removal did, removing the same index
/// again yields nothing and changes nothing.
pub proof fn lemma_remove_one_shot<T>(floor: Seq<Option<T>>, holes: Seq<usize>, key: usize)
    ensures
        ({
            let first = take_model(floor, holes, key);
            let second = take_model(first.0, first.1, key);
            &&& second.2 is None
            &&& second.0 == first.0
            &&& second.1 == first.1
        }),
{
}

/// Law (iteration completeness): the occupied pairs name each occupied slot
/// exactly once, in strictly ascending index order, with the value stored
/// there, and name nothing else.
pub proof fn lemma_iteration_complete<T>(floor: Seq<Option<T>>)
    requires
        floor.len() <= usize::MAX,
    ensures
        forall|p: int|
            0 <= p < occupied_pairs(floor).len() ==> (#[trigger] occupied_pairs(floor)[p]).0
                < floor.len() && floor[occupied_pairs(floor)[p].0 as int] == Some(
                occupied_pairs(floor)[p].1,
            ),
        forall|p: int, q: int|
            0 <= p < q < occupied_pairs(floor).len() ==> (#[trigger] occupied_pairs(floor)[p]).0 < (
            #[trigger] occupied_pairs(floor)[q]).0,
        forall|j: int|
            0 <= j < floor.len() && floor[j] is Some ==> exists|p: int|
                0 <= p < occupied_pairs(floor).len() && (#[trigger] occupied_pairs(floor)[p]).0
                    == j,
{
    lemma_occupied_pairs_from_props(floor, 0);
    assert forall|j: int| 0 <= j < floor.len() && floor[j] is Some implies exists|p: int|
        0 <= p < occupied_pairs(floor).len() && (#[trigger] occupied_pairs(floor)[p]).0 == j by {
        let p = choose|p: int|
            0 <= p < occupied_pairs_from(floor, 0).len() && (#[trigger] occupied_pairs_from(
                floor,
                0,
            )[p]).0 == j;
        assert(occupied_pairs(floor)[p].0 == j);
    }
}

/// The inductive core of `lemma_iteration_complete`, for the pairs at `from`
/// and above.
proof fn lemma_occupied_pairs_from_props<T>(floor: Seq<Option<T>>, from: int)
    requires
        0 <= from,
        floor.len() <= usize::MAX,
    ensures
        forall|p: int|
            0 <= p < occupied_pairs_from(floor, from).len() ==> from <= (
            #[trigger] occupied_pairs_from(floor, from)[p]).0 < floor.len() && floor[
                occupied_pairs_from(floor, from)[p].0 as int] == Some(
                occupied_pairs_from(floor, from)[p].1,
            ),
        forall|p: int, q: int|
            0 <= p < q < occupied_pairs_from(floor, from).len() ==> (
            #[trigger] occupied_pairs_from(floor, from)[p]).0 < (#[trigger] occupied_pairs_from(
                floor,
                from,
            )[q]).0,
        forall|j: int|
            from <= j < floor.len() && floor[j] is Some ==> exists|p: int|
                0 <= p < occupied_pairs_from(floor, from).len() && (
                #[trigger] occupied_pairs_from(floor, from)[p]).0 == j,
    decreases floor.len() - from,
{
    if from < floor.len() {
        lemma_occupied_pairs_from_props(floor, from + 1);
        let out = occupied_pairs_from(floor, from);
        let rest = occupied_pairs_from(floor, from + 1);
        match floor[from] {
            Some(v) => {
                assert(out == seq![(from as usize, v)] + rest);
                assert forall|j: int|
                    from <= j < floor.len() && floor[j] is Some implies exists|p: int|
                    0 <= p < out.len() && (#[trigger] out[p]).0 == j by {
                    if j == from {
                        assert(out[0].0 == j);
                    } else {
                        let p = choose|p: int| 0 <= p < rest.len() && (#[trigger] rest[p]).0 == j;
                        assert(out[p + 1].0 == j);
                    }
                }
            },
            None => {
                assert(out == rest);
                assert forall|j: int|
                    from <= j < floor.len() && floor[j] is Some implies exists|p: int|
                    0 <= p < out.len() && (#[trigger] out[p]).0 == j by {
                    let p = choose|p: int| 0 <= p < rest.len() && (#[trigger] rest[p]).0 == j;
                    assert(out[p].0 == j);
                }
            },
        }
    }
}

/// Law (iteration completeness): the non-consuming value iteration and the
/// consuming pair iteration produce the same values, in the same order.
pub proof fn lemma_values_match_pairs<T>(floor: Seq<Option<T>>)
    ensures
        occupied_values(floor) == occupied_pairs(floor).map_values(|p: (usize, T)| p.1),
{
    lemma_values_match_pairs_from(floor, 0);
}

/// The inductive core of `lemma_values_match_pairs`.
proof fn lemma_values_match_pairs_from<T>(floor: Seq<Option<T>>, from: int)
    ensures
        occupied_values_from(floor, from) == occupied_pairs_from(floor, from).map_values(
            |p: (usize, T)| p.1,
        ),
    decreases floor.len() - from,
{
    if from < 0 || from >= floor.len() {
        assert(occupied_pairs_from(floor, from).map_values(|p: (usize, T)| p.1) =~= Seq::empty());
    } else {
        lemma_values_match_pairs_from(floor, from + 1);
        match floor[from] {
            Some(v) => {
                assert((seq![(from as usize, v)] + occupied_pairs_from(floor, from + 1)).map_values(
                    |p: (usize, T)| p.1,
                ) =~= seq![v] + occupied_pairs_from(floor, from + 1).map_values(
                    |p: (usize, T)| p.1,
                ));
            },
            None => {},
        }
    }
}

/// Emptying a slot below `from` does not change the occupied pairs at `from`
/// and above.
proof fn lemma_occupied_pairs_from_update_below<T>(floor: Seq<Option<T>>, key: int, from: int)
    requires
        0 <= key < floor.len(),
        key < from,
    ensures
        occupied_pairs_from(floor.update(key, None), from) == occupied_pairs_from(floor, from),
    decreases floor.len() - from,
{
    let floor1 = floor.update(key, None);
    if from < floor.len() {
        lemma_occupied_pairs_from_update_below(floor, key, from + 1);
        assert(floor1[from] == floor[from]);
    }
}

/// Emptying an occupied slot and pushing its index onto the free list
/// preserves well-formedness of the slots/free-list pair.
proof fn lemma_take_wf<T>(floor: Seq<Option<T>>, holes: Seq<usize>, key: usize)
    requires
        key < floor.len(),
        floor[key as int] is Some,
        forall|i: int|
            0 <= i < holes.len() ==> (#[trigger] holes[i]) < floor.len() && floor[holes[i] as int]
                is None,
        holes.no_duplicates(),
        forall|j: int|
            0 <= j < floor.len() && floor[j] is None ==> holes.contains(j as usize),
    ensures
        ({
            let floor1 = floor.update(key as int, None);
            let holes1 = holes.push(key);
            &&& forall|i: int|
                0 <= i < holes1.len() ==> (#[trigger] holes1[i]) < floor1.len()
                    && floor1[holes1[i] as int] is None
            &&& holes1.no_duplicates()
            &&& forall|j: int|
                0 <= j < floor1.len() && floor1[j] is None ==> holes1.contains(j as usize)
        }),
{
    let floor1 = floor.update(key as int, None);
    let holes1 = holes.push(key);
    assert forall|i: int| 0 <= i < holes.len() implies holes[i] != key by {
        assert(floor[holes[i] as int] is None);
    }
    assert forall|j: int| 0 <= j < floor1.len() && floor1[j] is None implies holes1.contains(
        j as usize,
    ) by {
        if j == key as int {
            assert(holes1[holes1.len() - 1] == j as usize);
        } else {
            assert(floor[j] is None);
            let i = choose|i: int| 0 <= i < holes.len() && holes[i] == j as usize;
            assert(holes1[i] == j as usize);
        }
    }
}

/// Filling the most recently freed slot preserves well-formedness of the
/// slots/free-list pair.
proof fn lemma_put_reuse_wf<T>(floor: Seq<Option<T>>, holes: Seq<usize>, value: T)
    requires
        holes.len() > 0,
        floor.len() <= usize::MAX,
        forall|i: int|
            0 <= i < holes.len() ==> (#[trigger] holes[i]) < floor.len() && floor[holes[i] as int]
                is None,
        holes.no_duplicates(),
        forall|j: int|
            0 <= j < floor.len() && floor[j] is None ==> holes.contains(j as usize),
    ensures
        ({
            let floor1 = floor.update(holes.last() as int, Some(value));
            let holes1 = holes.drop_last();
            &&& forall|i: int|
                0 <= i < holes1.len() ==> (#[trigger] holes1[i]) < floor1.len()
                    && floor1[holes1[i] as int] is None
            &&& holes1.no_duplicates()
            &&& forall|j: int|
                0 <= j < floor1.len() && floor1[j] is None ==> holes1.contains(j as usize)
        }),
{
    let floor1 = floor.update(holes.last() as int, Some(value));
    let holes1 = holes.drop_last();
    let reused = holes.last();
    assert forall|i: int| 0 <= i < holes1.len() implies (#[trigger] holes1[i]) < floor1.len()
        && floor1[holes1[i] as int] is None by {
        assert(holes1[i] == holes[i]);
        assert(holes[i] != reused) by {
            assert(holes[i] == holes[i] && holes[holes.len() - 1] == reused);
        }
    }
    assert forall|j: int| 0 <= j < floor1.len() && floor1[j] is None implies holes1.contains(
        j as usize,
    ) by {
        assert(j != reused as int);
        assert(floor[j] is None);
        assert(holes.contains(j as usize));
        let i = choose|i: int| 0 <= i < holes.len() && holes[i] == j as usize;
        assert(i != holes.len() - 1) by {
            assert(j as usize as int == j);
        }
        assert(holes1[i] == j as usize);
    }
}

} // verus!
