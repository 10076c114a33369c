//! # Handled Vec
//!
//! A handle container hands out handles in place of references. A slot that
//! was freed is used again by a later insertion, under a higher generation,
//! so that a handle to the earlier occupant no longer matches.
//!
//! The container is built on a `DataVector` and does not depend on how that
//! stores the slots.

pub mod data_vector;
pub mod handles;

use crate::handled_vec::data_vector::{
    DataField, DataFieldIterator, DataIterator, DataVector, HandleIterator, StdVec,
};
use crate::geometry::storage::{ImmutableVector, Persistent};
use crate::handled_vec::handles::Handle;
use vstd::prelude::*;

verus! {

#[derive(Debug, PartialEq)]
pub enum HandledVecError {
    GenerationMismatch,
    IndexDoesNotExist,
    IndexUnoccupied,
    CannotBorrowAsMutable,
}

/// The number of slots in use.
pub open spec fn occupied_count<T>(slots: Seq<DataField<T>>) -> nat
    decreases slots.len(),
{
    if slots.len() == 0 {
        0
    } else {
        occupied_count(slots.drop_last()) + if slots.last().occupied {
            1nat
        } else {
            0nat
        }
    }
}

pub proof fn lemma_occupied_count_bound<T>(slots: Seq<DataField<T>>)
    ensures
        occupied_count(slots) <= slots.len(),
    decreases slots.len(),
{
    if slots.len() > 0 {
        lemma_occupied_count_bound(slots.drop_last());
    }
}

pub proof fn lemma_occupied_count_push<T>(slots: Seq<DataField<T>>, field: DataField<T>)
    ensures
        occupied_count(slots.push(field)) == occupied_count(slots) + if field.occupied {
            1nat
        } else {
            0nat
        },
{
    assert(slots.push(field).drop_last() =~= slots);
}

pub proof fn lemma_occupied_count_update<T>(slots: Seq<DataField<T>>, i: int, field: DataField<T>)
    requires
        0 <= i < slots.len(),
    ensures
        occupied_count(slots.update(i, field)) + (if slots[i].occupied {
            1nat
        } else {
            0nat
        }) == occupied_count(slots) + (if field.occupied {
            1nat
        } else {
            0nat
        }),
    decreases slots.len(),
{
    let updated = slots.update(i, field);
    if i == slots.len() - 1 {
        assert(updated.drop_last() =~= slots.drop_last());
    } else {
        assert(updated.drop_last() =~= slots.drop_last().update(i, field));
        lemma_occupied_count_update(slots.drop_last(), i, field);
    }
}

/// Slots that are all in use are as many as are in use.
pub proof fn lemma_all_occupied_count<T>(slots: Seq<DataField<T>>)
    requires
        forall|i: int| 0 <= i < slots.len() ==> (#[trigger] slots[i]).occupied,
    ensures
        occupied_count(slots) == slots.len(),
    decreases slots.len(),
{
    if slots.len() > 0 {
        assert forall|i: int| 0 <= i < slots.drop_last().len() implies (
        #[trigger] slots.drop_last()[i]).occupied by {
            assert(slots[i].occupied);
        }
        lemma_all_occupied_count(slots.drop_last());
        assert(slots[slots.len() - 1].occupied);
    }
}

pub proof fn lemma_same_flags_count<T>(slots: Seq<DataField<T>>, others: Seq<DataField<T>>)
    requires
        slots.len() == others.len(),
        forall|i: int| 0 <= i < slots.len() ==> (#[trigger] slots[i]).occupied == others[i].occupied,
    ensures
        occupied_count(slots) == occupied_count(others),
    decreases slots.len(),
{
    if slots.len() > 0 {
        assert forall|i: int| 0 <= i < slots.drop_last().len() implies (
        #[trigger] slots.drop_last()[i]).occupied == others.drop_last()[i].occupied by {
            assert(slots[i].occupied == others[i].occupied);
        }
        lemma_same_flags_count(slots.drop_last(), others.drop_last());
        assert(slots[slots.len() - 1].occupied == others[slots.len() - 1].occupied);
    }
}

/// The handles of the slots in use among the first `upto` slots, in index
/// order, each as (index, generation).
pub open spec fn live_handles<T>(slots: Seq<DataField<T>>, upto: int) -> Seq<(usize, usize)>
    decreases upto,
{
    if upto <= 0 {
        Seq::empty()
    } else if slots[upto - 1].occupied {
        live_handles(slots, upto - 1).push(((upto - 1) as usize, slots[upto - 1].generation))
    } else {
        live_handles(slots, upto - 1)
    }
}

/// What a handle container holds: its slots, and the freed handles that wait
/// to be used again, the next one last.
pub struct Arena<T> {
    pub slots: Seq<DataField<T>>,
    pub free: Seq<(usize, usize)>,
}

/// How a lookup ends.
pub enum Lookup {
    Found,
    Stale,
    Missing,
    Unoccupied,
}

impl<T> Arena<T> {
    pub open spec fn empty() -> Self {
        Arena { slots: Seq::empty(), free: Seq::empty() }
    }

    /// A slot is in use exactly when it holds a payload, generations start
    /// at 1, and the free list names each waiting slot once, with the
    /// slot's generation.
    pub open spec fn wf(self) -> bool {
        &&& self.slots.len() <= usize::MAX
        &&& forall|i: int|
            0 <= i < self.slots.len() ==> (#[trigger] self.slots[i]).occupied
                == self.slots[i].data.is_some() && self.slots[i].generation >= 1
        &&& forall|k: int|
            0 <= k < self.free.len() ==> {
                let f = #[trigger] self.free[k];
                &&& f.0 < self.slots.len()
                &&& !self.slots[f.0 as int].occupied
                &&& self.slots[f.0 as int].generation == f.1
                &&& f.1 < usize::MAX
            }
        &&& forall|j: int, k: int|
            0 <= j < k < self.free.len() ==> (#[trigger] self.free[j]).0 != (
            #[trigger] self.free[k]).0
    }

    pub open spec fn count(self) -> nat {
        occupied_count(self.slots)
    }

    pub open spec fn lookup(self, index: usize, generation: usize) -> Lookup {
        if index >= self.slots.len() {
            Lookup::Missing
        } else if self.slots[index as int].generation != generation {
            Lookup::Stale
        } else if !self.slots[index as int].occupied {
            Lookup::Unoccupied
        } else {
            Lookup::Found
        }
    }

    /// The handle's slot exists, is in use, and has the handle's generation.
    pub open spec fn contains(self, index: usize, generation: usize) -> bool {
        self.lookup(index, generation) is Found
    }

    pub open spec fn value(self, index: usize) -> T {
        self.slots[index as int].data->0
    }

    /// The handle that the next insertion returns.
    pub open spec fn next_handle(self) -> (usize, usize) {
        if self.free.len() > 0 {
            (self.free.last().0, (self.free.last().1 + 1) as usize)
        } else {
            (self.slots.len() as usize, 1usize)
        }
    }

    pub open spec fn insert(self, entry: T) -> Self {
        let handle = self.next_handle();
        let field = DataField { data: Some(entry), generation: handle.1, occupied: true };
        if self.free.len() > 0 {
            Arena { slots: self.slots.update(handle.0 as int, field), free: self.free.drop_last() }
        } else {
            Arena { slots: self.slots.push(field), free: self.free }
        }
    }

    /// Frees the slot of a handle that is in use and puts the handle on the
    /// free list; a slot at the last generation there is goes out of use for
    /// good. Any other handle changes nothing.
    pub open spec fn remove(self, index: usize, generation: usize) -> Self {
        if self.contains(index, generation) {
            Arena {
                slots: self.slots.update(
                    index as int,
                    DataField { data: None, generation, occupied: false },
                ),
                free: if generation < usize::MAX {
                    self.free.push((index, generation))
                } else {
                    self.free
                },
            }
        } else {
            self
        }
    }

    pub open spec fn update(self, index: usize, generation: usize, entry: T) -> Self {
        if self.contains(index, generation) {
            Arena {
                slots: self.slots.update(
                    index as int,
                    DataField { data: Some(entry), generation, occupied: true },
                ),
                free: self.free,
            }
        } else {
            self
        }
    }

    pub open spec fn handles(self) -> Seq<(usize, usize)> {
        live_handles(self.slots, self.slots.len() as int)
    }

    /// Walking the handles meets each entry once: there are as many handles
    /// as entries, each is found by a lookup, their indices rise, and no slot
    /// in use is left out.
    pub proof fn lemma_handles_complete(self)
        requires
            self.wf(),
        ensures
            self.handles().len() == self.count(),
            forall|k: int|
                0 <= k < self.handles().len() ==> self.contains(
                    (#[trigger] self.handles()[k]).0,
                    self.handles()[k].1,
                ),
            forall|j: int, k: int|
                0 <= j < k < self.handles().len() ==> (#[trigger] self.handles()[j]).0 < (
                #[trigger] self.handles()[k]).0,
            forall|i: int|
                0 <= i < self.slots.len() && (#[trigger] self.slots[i]).occupied
                    ==> self.handles().contains((i as usize, self.slots[i].generation)),
    {
        lemma_live_handles(self.slots, self.slots.len() as int);
        assert(self.slots.take(self.slots.len() as int) =~= self.slots);
    }

    /// A handle is used up by its removal: the insertion that follows takes
    /// the same slot under the next generation, and from then on the old
    /// handle is stale while the new one finds the new entry.
    pub proof fn lemma_reuse_invalidates(self, first: T, second: T)
        requires
            self.wf(),
            self.free.len() == 0 ==> self.slots.len() < usize::MAX,
            self.next_handle().1 < usize::MAX,
        ensures
            ({
                let earlier = self.next_handle();
                let emptied = self.insert(first).remove(earlier.0, earlier.1);
                let later = emptied.next_handle();
                let refilled = emptied.insert(second);
                &&& later.0 == earlier.0
                &&& later.1 == earlier.1 + 1
                &&& refilled.lookup(earlier.0, earlier.1) is Stale
                &&& refilled.contains(later.0, later.1)
                &&& refilled.value(later.0) == second
                &&& refilled.wf()
            }),
    {
        let earlier = self.next_handle();
        self.lemma_insert_wf(first);
        let filled = self.insert(first);
        filled.lemma_remove_wf(earlier.0, earlier.1);
        let emptied = filled.remove(earlier.0, earlier.1);
        assert(emptied.free.last() == earlier);
        emptied.lemma_insert_wf(second);
    }

    /// An insertion leaves every entry that was there where it was, and adds
    /// one under a handle that found nothing before.
    pub proof fn lemma_insert_frame(self, entry: T)
        requires
            self.wf(),
        ensures
            !self.contains(self.next_handle().0, self.next_handle().1),
            forall|index: usize, generation: usize|
                self.contains(index, generation) ==> #[trigger] self.insert(entry).contains(
                    index,
                    generation,
                ) && self.insert(entry).slots[index as int] == self.slots[index as int],
            forall|index: usize, generation: usize| #[trigger]
                self.insert(entry).contains(index, generation) ==> self.contains(
                    index,
                    generation,
                ) || (index, generation) == self.next_handle(),
            self.insert(entry).contains(self.next_handle().0, self.next_handle().1),
            self.insert(entry).value(self.next_handle().0) == entry,
    {
        if self.free.len() > 0 {
            assert(self.free.last() == self.free[self.free.len() - 1]);
        }
    }

    /// An update finds what was found before, and changes one entry only.
    pub proof fn lemma_update_frame(self, index: usize, generation: usize, entry: T)
        ensures
            forall|i: usize, g: usize| #[trigger]
                self.update(index, generation, entry).contains(i, g) <==> self.contains(i, g),
            forall|i: usize|
                i != index && i < self.slots.len() ==> #[trigger] self.update(
                    index,
                    generation,
                    entry,
                ).slots[i as int] == self.slots[i as int],
            self.contains(index, generation) ==> self.update(index, generation, entry).value(index)
                == entry,
            self.update(index, generation, entry).slots.len() == self.slots.len(),
            self.update(index, generation, entry).free == self.free,
    {
    }

    /// A removal leaves every other entry where it was.
    pub proof fn lemma_remove_frame(self, index: usize, generation: usize)
        ensures
            forall|i: usize, g: usize| #[trigger]
                self.remove(index, generation).contains(i, g) <==> self.contains(i, g) && !(i
                    == index && g == generation),
            forall|i: usize|
                i != index && i < self.slots.len() ==> #[trigger] self.remove(
                    index,
                    generation,
                ).slots[i as int] == self.slots[i as int],
            self.remove(index, generation).slots.len() == self.slots.len(),
    {
    }

    /// The same slots are in use, under the same generations, and the same
    /// handles wait to be used again.
    pub open spec fn same_layout(self, other: Arena<T>) -> bool {
        &&& self.slots.len() == other.slots.len()
        &&& self.free == other.free
        &&& forall|i: int|
            0 <= i < self.slots.len() ==> (#[trigger] self.slots[i]).occupied
                == other.slots[i].occupied && self.slots[i].generation == other.slots[i].generation
    }

    /// Containers with the same slots in use hold as many entries.
    pub proof fn lemma_same_layout_count(self, other: Arena<T>)
        requires
            self.same_layout(other),
        ensures
            self.count() == other.count(),
    {
        lemma_same_flags_count(self.slots, other.slots);
    }

    pub proof fn lemma_insert_wf(self, entry: T)
        requires
            self.wf(),
            self.free.len() == 0 ==> self.slots.len() < usize::MAX,
        ensures
            self.insert(entry).wf(),
            self.insert(entry).count() == self.count() + 1,
            self.insert(entry).contains(self.next_handle().0, self.next_handle().1),
            self.insert(entry).value(self.next_handle().0) == entry,
    {
        let handle = self.next_handle();
        let field = DataField { data: Some(entry), generation: handle.1, occupied: true };
        let after = self.insert(entry);
        if self.free.len() > 0 {
            let f = self.free.last();
            assert(f == self.free[self.free.len() - 1]);
            lemma_occupied_count_update(self.slots, handle.0 as int, field);
            assert forall|k: int| 0 <= k < after.free.len() implies {
                let g = #[trigger] after.free[k];
                &&& g.0 < after.slots.len()
                &&& !after.slots[g.0 as int].occupied
                &&& after.slots[g.0 as int].generation == g.1
                &&& g.1 < usize::MAX
            } by {
                assert(after.free[k] == self.free[k]);
            }
            assert forall|j: int, k: int| 0 <= j < k < after.free.len() implies (
            #[trigger] after.free[j]).0 != (#[trigger] after.free[k]).0 by {
                assert(after.free[j] == self.free[j]);
                assert(after.free[k] == self.free[k]);
            }
        } else {
            lemma_occupied_count_push(self.slots, field);
        }
    }

    pub proof fn lemma_remove_wf(self, index: usize, generation: usize)
        requires
            self.wf(),
        ensures
            self.remove(index, generation).wf(),
            self.contains(index, generation) ==> self.remove(index, generation).count() + 1
                == self.count(),
            !self.remove(index, generation).contains(index, generation),
    {
        if self.contains(index, generation) {
            let after = self.remove(index, generation);
            let field = DataField::<T> { data: None, generation, occupied: false };
            lemma_occupied_count_update(self.slots, index as int, field);
            assert forall|k: int| 0 <= k < after.free.len() implies {
                let g = #[trigger] after.free[k];
                &&& g.0 < after.slots.len()
                &&& !after.slots[g.0 as int].occupied
                &&& after.slots[g.0 as int].generation == g.1
                &&& g.1 < usize::MAX
            } by {
                if k < self.free.len() {
                    assert(after.free[k] == self.free[k]);
                }
            }
            assert forall|j: int, k: int| 0 <= j < k < after.free.len() implies (
            #[trigger] after.free[j]).0 != (#[trigger] after.free[k]).0 by {
                assert(after.free[j] == self.free[j]);
                if k < self.free.len() {
                    assert(after.free[k] == self.free[k]);
                }
            }
        }
    }

    pub proof fn lemma_update_wf(self, index: usize, generation: usize, entry: T)
        requires
            self.wf(),
        ensures
            self.update(index, generation, entry).wf(),
            self.update(index, generation, entry).count() == self.count(),
    {
        if self.contains(index, generation) {
            let field = DataField { data: Some(entry), generation, occupied: true };
            lemma_occupied_count_update(self.slots, index as int, field);
        }
    }
}


/// What `live_handles` lists: one handle for each slot in use among the
/// first `upto`, in rising index order, and nothing else.
pub proof fn lemma_live_handles<T>(slots: Seq<DataField<T>>, upto: int)
    requires
        0 <= upto <= slots.len() <= usize::MAX,
    ensures
        live_handles(slots, upto).len() == occupied_count(slots.take(upto)),
        forall|k: int|
            0 <= k < live_handles(slots, upto).len() ==> {
                let h = #[trigger] live_handles(slots, upto)[k];
                &&& h.0 < upto
                &&& slots[h.0 as int].occupied
                &&& slots[h.0 as int].generation == h.1
            },
        forall|j: int, k: int|
            0 <= j < k < live_handles(slots, upto).len() ==> (#[trigger] live_handles(
                slots,
                upto,
            )[j]).0 < (#[trigger] live_handles(slots, upto)[k]).0,
        forall|i: int|
            0 <= i < upto && (#[trigger] slots[i]).occupied ==> live_handles(
                slots,
                upto,
            ).contains((i as usize, slots[i].generation)),
    decreases upto,
{
    if upto > 0 {
        lemma_live_handles(slots, upto - 1);
        let shorter = live_handles(slots, upto - 1);
        let all = live_handles(slots, upto);
        assert(slots.take(upto).drop_last() =~= slots.take(upto - 1));
        assert(slots.take(upto).last() == slots[upto - 1]);
        assert forall|k: int| 0 <= k < shorter.len() implies all[k] == shorter[k] by {}
        assert forall|i: int| 0 <= i < upto && (#[trigger] slots[i]).occupied implies all.contains(
            (i as usize, slots[i].generation),
        ) by {
            if i < upto - 1 {
                let k = choose|k: int|
                    0 <= k < shorter.len() && shorter[k] == (i as usize, slots[i].generation);
                assert(all[k] == shorter[k]);
            } else {
                assert(all[all.len() - 1] == (i as usize, slots[i].generation));
            }
        }
    } else {
        assert(slots.take(0) =~= Seq::empty());
    }
}

/// A container of entries that are reached by handle.
#[derive(Debug)]
pub struct HandledVec<H: Handle, D: DataVector> {
    data: D,
    free_handles: Vec<H>,
    entity_count: usize,
}

/// A handle as the pair of its index and its generation.
pub open spec fn parts<H: Handle>(handle: H) -> (usize, usize) {
    (handle.spec_index(), handle.spec_generation())
}

impl<H: Handle, D: DataVector> HandledVec<H, D> {
    pub closed spec fn view(&self) -> Arena<D::EntryDataType> {
        Arena { slots: self.data@, free: self.free_handles@.map_values(|h: H| parts(h)) }
    }

    pub closed spec fn spec_entity_count(&self) -> usize {
        self.entity_count
    }

    pub open spec fn wf(&self) -> bool {
        &&& self@.wf()
        &&& self.spec_entity_count() == self@.count()
    }

    pub fn new() -> (empty: Self)
        ensures
            empty@ == Arena::<D::EntryDataType>::empty(),
            empty.wf(),
    {
        let empty = HandledVec { data: D::new(), free_handles: Vec::new(), entity_count: 0 };
        assert(empty@.free =~= Seq::empty());
        empty
    }

    pub fn add_entry(&mut self, entry: D::EntryDataType) -> (handle: H)
        requires
            old(self).wf(),
        ensures
            final(self).wf(),
            final(self)@ == old(self)@.insert(entry),
            parts(handle) == old(self)@.next_handle(),
            final(self)@.contains(handle.spec_index(), handle.spec_generation()),
            final(self)@.value(handle.spec_index()) == entry,
            final(self)@.count() == old(self)@.count() + 1,
    {
        let handle = self.get_free_handle();
        let new_datum = DataField::new(Some(entry), handle.get_generation(), true);
        if self.data.len() == handle.get_index() {
            self.data.push(new_datum);
        } else {
            self.data.set_data_field(handle.get_index(), new_datum);
        }
        let length = self.data.len();
        proof {
            old(self)@.lemma_insert_wf(entry);
            lemma_occupied_count_bound(self.data@);
        }
        self.entity_count += 1;
        handle
    }

    pub fn remove_entry(&mut self, handle: H) -> (result: Result<(), HandledVecError>)
        requires
            old(self).wf(),
        ensures
            final(self).wf(),
            final(self)@ == old(self)@.remove(handle.spec_index(), handle.spec_generation()),
            match old(self)@.lookup(handle.spec_index(), handle.spec_generation()) {
                Lookup::Missing => result == Err::<(), _>(HandledVecError::IndexDoesNotExist),
                Lookup::Stale => result == Err::<(), _>(HandledVecError::GenerationMismatch),
                _ => result is Ok,
            },
    {
        let index = handle.get_index();
        let generation = handle.get_generation();
        match self.data.get(index) {
            None => Err(HandledVecError::IndexDoesNotExist),
            Some(data_field) => {
                if data_field.get_generation() != generation {
                    return Err(HandledVecError::GenerationMismatch);
                }
                if !data_field.get_occupied() {
                    return Ok(());
                }
                self.data.set_data_field(index, DataField::new(None, generation, false));
                if generation < usize::MAX {
                    self.free_handles.push(handle);
                }
                proof {
                    old(self)@.lemma_remove_wf(index, generation);
                    assert(self@.free =~= old(self)@.remove(index, generation).free);
                }
                self.entity_count -= 1;
                Ok(())
            },
        }
    }

    pub fn get(&self, handle: &H) -> (result: Result<&D::EntryDataType, HandledVecError>)
        requires
            self.wf(),
        ensures
            match self@.lookup(handle.spec_index(), handle.spec_generation()) {
                Lookup::Found => result == Ok::<_, HandledVecError>(
                    &self@.value(handle.spec_index()),
                ),
                Lookup::Stale => result == Err::<&D::EntryDataType, _>(
                    HandledVecError::GenerationMismatch,
                ),
                Lookup::Missing => result == Err::<&D::EntryDataType, _>(
                    HandledVecError::IndexDoesNotExist,
                ),
                Lookup::Unoccupied => result == Err::<&D::EntryDataType, _>(
                    HandledVecError::IndexUnoccupied,
                ),
            },
    {
        match self.data.get(handle.get_index()) {
            Some(data) => {
                if data.get_generation() == handle.get_generation() {
                    match data.get_data() {
                        Some(entry) => Ok(entry),
                        None => Err(HandledVecError::IndexUnoccupied),
                    }
                } else {
                    Err(HandledVecError::GenerationMismatch)
                }
            },
            None => Err(HandledVecError::IndexDoesNotExist),
        }
    }

    pub fn update(&mut self, handle: &H, entry: D::EntryDataType) -> (result: Result<
        (),
        HandledVecError,
    >)
        requires
            old(self).wf(),
        ensures
            final(self).wf(),
            final(self)@ == old(self)@.update(
                handle.spec_index(),
                handle.spec_generation(),
                entry,
            ),
            match old(self)@.lookup(handle.spec_index(), handle.spec_generation()) {
                Lookup::Found => result is Ok,
                Lookup::Stale => result == Err::<(), _>(HandledVecError::GenerationMismatch),
                Lookup::Missing => result == Err::<(), _>(HandledVecError::IndexDoesNotExist),
                Lookup::Unoccupied => result == Err::<(), _>(HandledVecError::IndexUnoccupied),
            },
    {
        let index = handle.get_index();
        let generation = handle.get_generation();
        match self.data.get(index) {
            None => Err(HandledVecError::IndexDoesNotExist),
            Some(data_field) => {
                if data_field.get_generation() != generation {
                    return Err(HandledVecError::GenerationMismatch);
                }
                if !data_field.get_occupied() {
                    return Err(HandledVecError::IndexUnoccupied);
                }
                proof {
                    old(self)@.lemma_update_wf(index, generation, entry);
                }
                self.data.set_data_field(index, DataField::new(Some(entry), generation, true));
                Ok(())
            },
        }
    }

    pub fn get_handle_for_index(&self, index: usize) -> (handle: Option<H>)
        ensures
            index < self@.slots.len() ==> handle is Some && parts(handle->0) == (
                index,
                self@.slots[index as int].generation,
            ),
            index >= self@.slots.len() ==> handle is None,
    {
        match self.data.get(index) {
            Some(field) => Some(H::new(index, field.get_generation())),
            None => None,
        }
    }

    pub fn get_length(&self) -> (length: usize)
        ensures
            length == self@.slots.len(),
    {
        self.data.len()
    }

    pub fn get_entity_count(&self) -> (count: usize)
        requires
            self.wf(),
        ensures
            count == self@.count(),
    {
        self.entity_count
    }

    pub fn is_handle_valid(&self, handle: &H) -> (result: Result<(), HandledVecError>)
        ensures
            match self@.lookup(handle.spec_index(), handle.spec_generation()) {
                Lookup::Missing => result == Err::<(), _>(HandledVecError::IndexDoesNotExist),
                Lookup::Stale => result == Err::<(), _>(HandledVecError::GenerationMismatch),
                _ => result is Ok,
            },
    {
        match self.data.get(handle.get_index()) {
            Some(data_field) => {
                if data_field.get_generation() == handle.get_generation() {
                    Ok(())
                } else {
                    Err(HandledVecError::GenerationMismatch)
                }
            },
            None => Err(HandledVecError::IndexDoesNotExist),
        }
    }

    pub fn get_mut(&mut self, handle: &H) -> (result: Result<
        &mut D::EntryDataType,
        HandledVecError,
    >)
        requires
            old(self).wf(),
        ensures
            match old(self)@.lookup(handle.spec_index(), handle.spec_generation()) {
                Lookup::Found => result is Ok && *result->Ok_0 == old(self)@.value(
                    handle.spec_index(),
                ) && final(self)@ == old(self)@.update(
                    handle.spec_index(),
                    handle.spec_generation(),
                    *final(result->Ok_0),
                ),
                Lookup::Stale => result == Err::<&mut D::EntryDataType, _>(
                    HandledVecError::GenerationMismatch,
                ) && final(self)@ == old(self)@,
                Lookup::Missing => result == Err::<&mut D::EntryDataType, _>(
                    HandledVecError::IndexDoesNotExist,
                ) && final(self)@ == old(self)@,
                Lookup::Unoccupied => result == Err::<&mut D::EntryDataType, _>(
                    HandledVecError::CannotBorrowAsMutable,
                ) && final(self)@ == old(self)@,
            },
            final(self).wf(),
    {
        let index = handle.get_index();
        let generation = handle.get_generation();
        match self.data.get(index) {
            None => {
                return Err(HandledVecError::IndexDoesNotExist);
            },
            Some(data_field) => {
                if data_field.get_generation() != generation {
                    return Err(HandledVecError::GenerationMismatch);
                }
                if !data_field.get_occupied() {
                    return Err(HandledVecError::CannotBorrowAsMutable);
                }
            },
        }
        let ghost before = self@;
        match self.data.get_mut(index) {
            Some(data_field) => {
                match data_field.get_data_mut().as_mut() {
                    Some(data) => {
                        proof {
                            before.lemma_update_wf(index, generation, *final(data));
                        }
                        Ok(data)
                    },
                    None => Err(HandledVecError::CannotBorrowAsMutable),
                }
            },
            None => Err(HandledVecError::CannotBorrowAsMutable),
        }
    }

    /// The slot at an index, in use or not.
    pub fn get_field(&self, index: usize) -> (field: Option<&DataField<D::EntryDataType>>)
        ensures
            index < self@.slots.len() ==> field == Some(&self@.slots[index as int]),
            index >= self@.slots.len() ==> field is None,
    {
        self.data.get(index)
    }

    /// The freed handles that wait to be used again, the next one last.
    pub fn get_free_handles(&self) -> (free: &Vec<H>)
        ensures
            free@.map_values(|h: H| parts(h)) == self@.free,
    {
        &self.free_handles
    }

    pub fn get_handle_iterator(&self) -> (iterator: HandleIterator<'_, H, D>)
        ensures
            iterator.slots() == self@.slots,
            iterator.position() == 0,
    {
        HandleIterator::new(&self.data)
    }

    pub fn get_field_iterator(&self) -> (iterator: DataFieldIterator<'_, D>)
        ensures
            iterator.slots() == self@.slots,
            iterator.position() == 0,
    {
        DataFieldIterator::new(&self.data)
    }

    pub fn get_iterator(&self) -> (iterator: DataIterator<'_, D>)
        ensures
            iterator.slots() == self@.slots,
            iterator.position() == 0,
    {
        DataIterator::new(&self.data)
    }

    /// The handles of all entries, in index order.
    pub fn handles(&self) -> (handles: Vec<H>)
        requires
            self.wf(),
        ensures
            handles@.map_values(|h: H| parts(h)) == self@.handles(),
    {
        let mut handles: Vec<H> = Vec::new();
        let mut current: usize = 0;
        let length = self.data.len();
        while current < length
            invariant
                length == self.data@.len(),
                current <= length,
                handles@.map_values(|h: H| parts(h)) =~= live_handles(self.data@, current as int),
            decreases length - current,
        {
            if let Some(data_field) = self.data.get(current) {
                if data_field.get_occupied() {
                    let ghost before = handles@;
                    let handle = H::new(current, data_field.get_generation());
                    handles.push(handle);
                    assert(handles@.map_values(|h: H| parts(h)) =~= before.map_values(
                        |h: H| parts(h),
                    ).push(parts(handle)));
                }
            }
            current += 1;
        }
        handles
    }

    /// Replaces every entry by what `func` makes of it, in index order.
    pub fn mutate_each<F: Fn(&D::EntryDataType) -> D::EntryDataType>(&mut self, func: F)
        requires
            old(self).wf(),
            forall|i: int|
                0 <= i < old(self)@.slots.len() && old(self)@.slots[i].occupied
                    ==> call_requires(func, (&#[trigger] old(self)@.value(i as usize),)),
        ensures
            final(self).wf(),
            final(self)@.free == old(self)@.free,
            final(self)@.slots.len() == old(self)@.slots.len(),
            forall|i: int|
                0 <= i < old(self)@.slots.len() ==> {
                    let before = old(self)@.slots[i];
                    let after = #[trigger] final(self)@.slots[i];
                    if before.occupied {
                        &&& after.occupied
                        &&& after.generation == before.generation
                        &&& after.data is Some
                        &&& call_ensures(func, (&before.data->0,), after.data->0)
                    } else {
                        after == before
                    }
                },
    {
        let mut current: usize = 0;
        let length = self.data.len();
        while current < length
            invariant
                length == self.data@.len(),
                current <= length,
                self.wf(),
                self@.free == old(self)@.free,
                self@.slots.len() == old(self)@.slots.len(),
                forall|i: int|
                    0 <= i < old(self)@.slots.len() && old(self)@.slots[i].occupied
                        ==> call_requires(func, (&#[trigger] old(self)@.value(i as usize),)),
                forall|i: int|
                    current <= i < length ==> #[trigger] self@.slots[i] == old(self)@.slots[i],
                forall|i: int|
                    0 <= i < current ==> {
                        let before = old(self)@.slots[i];
                        let after = #[trigger] self@.slots[i];
                        if before.occupied {
                            &&& after.occupied
                            &&& after.generation == before.generation
                            &&& after.data is Some
                            &&& call_ensures(func, (&before.data->0,), after.data->0)
                        } else {
                            after == before
                        }
                    },
            decreases length - current,
        {
            let ghost arena = self@;
            let mut replacement: Option<DataField<D::EntryDataType>> = None;
            if let Some(data_field) = self.data.get(current) {
                if data_field.get_occupied() {
                    if let Some(entity) = data_field.get_data() {
                        assert(entity == old(self)@.value(current));
                        let changed = func(entity);
                        replacement = Some(
                            DataField::new(Some(changed), data_field.get_generation(), true),
                        );
                    }
                }
            }
            if let Some(field) = replacement {
                proof {
                    arena.lemma_update_wf(current, field.generation, field.data->0);
                }
                self.data.set_data_field(current, field);
            }
            current += 1;
        }
    }

    fn get_free_handle(&mut self) -> (handle: H)
        requires
            old(self).wf(),
        ensures
            parts(handle) == old(self)@.next_handle(),
            final(self).data == old(self).data,
            final(self).entity_count == old(self).entity_count,
            final(self)@.free == if old(self)@.free.len() > 0 {
                old(self)@.free.drop_last()
            } else {
                old(self)@.free
            },
    {
        match self.free_handles.pop() {
            Some(free_handle) => {
                proof {
                    let k = old(self)@.free.len() - 1;
                    assert(old(self)@.free[k] == parts(free_handle));
                    assert(self@.free =~= old(self)@.free.drop_last());
                }
                H::new(free_handle.get_index(), free_handle.get_generation() + 1)
            },
            None => {
                let length = self.data.len();
                H::new(length, 1)
            },
        }
    }
}


impl<H: Handle + Copy, T: Persistent> Clone for HandledVec<H, ImmutableVector<T>> {
    /// A copy that shares its slots with what it was copied from until either is
    /// written to.
    fn clone(&self) -> (copy: Self)
        ensures
            copy@ == self@,
            self.wf() ==> copy.wf(),
    {
        let mut free_handles: Vec<H> = Vec::new();
        let mut current: usize = 0;
        let length = self.free_handles.len();
        while current < length
            invariant
                current <= length,
                length == self.free_handles@.len(),
                free_handles@ == self.free_handles@.take(current as int),
            decreases length - current,
        {
            free_handles.push(self.free_handles[current]);
            assert(self.free_handles@.take(current + 1) =~= self.free_handles@.take(
                current as int,
            ).push(self.free_handles@[current as int]));
            current += 1;
        }
        assert(self.free_handles@.take(length as int) =~= self.free_handles@);
        HandledVec { data: self.data.clone(), free_handles, entity_count: self.entity_count }
    }
}


impl<H: Handle, T> HandledVec<H, StdVec<T>> {
    /// An entry is part of the container: what is defined by recursion over a
    /// container may descend into its entries.
    pub proof fn lemma_slot_decreases(&self, i: int)
        requires
            0 <= i < self@.slots.len(),
        ensures
            decreases_to!(*self => self@.slots[i]),
    {
        self.data.lemma_view_decreases();
        vstd::seq::axiom_seq_index_decreases(self.data@, i);
    }
}

} // verus!
