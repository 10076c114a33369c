//! The backing stores of a handle container.
//!
//! A container keeps one `DataField` per slot. Where the fields live is
//! left to a `DataVector`: `StdVec` keeps them in a growable array.

use crate::handled_vec::handles::Handle;
use std::marker::PhantomData;
use vstd::prelude::*;

verus! {

/// One slot: the payload, if any, the slot's current generation, and whether
/// the slot is in use.
#[derive(PartialEq, Debug, Clone)]
pub struct DataField<T> {
    pub data: Option<T>,
    pub generation: usize,
    pub occupied: bool,
}

impl<T> DataField<T> {
    pub fn new(data: Option<T>, generation: usize, occupied: bool) -> (field: Self)
        ensures
            field == (DataField { data, generation, occupied }),
    {
        DataField { data, generation, occupied }
    }

    pub fn set_data(&mut self, data: Option<T>)
        ensures
            *final(self) == (DataField { data, ..*old(self) }),
    {
        self.data = data;
    }

    pub fn set_generation(&mut self, generation: usize)
        ensures
            *final(self) == (DataField { generation, ..*old(self) }),
    {
        self.generation = generation;
    }

    pub fn set_occupied(&mut self, occupied: bool)
        ensures
            *final(self) == (DataField { occupied, ..*old(self) }),
    {
        self.occupied = occupied;
    }

    pub fn get_data(&self) -> (data: &Option<T>)
        ensures
            *data == self.data,
    {
        &self.data
    }

    pub fn get_data_mut(&mut self) -> (data: &mut Option<T>)
        ensures
            *data == old(self).data,
            *final(self) == (DataField { data: *final(data), ..*old(self) }),
    {
        &mut self.data
    }

    pub fn get_generation(&self) -> (generation: usize)
        ensures
            generation == self.generation,
    {
        self.generation
    }

    pub fn get_occupied(&self) -> (occupied: bool)
        ensures
            occupied == self.occupied,
    {
        self.occupied
    }
}

/// A growable sequence of slots.
pub trait DataVector: Sized {
    type EntryDataType;

    /// The slots, first to last.
    spec fn view(&self) -> Seq<DataField<Self::EntryDataType>>;

    fn get(&self, index: usize) -> (field: Option<&DataField<Self::EntryDataType>>)
        ensures
            index < self@.len() ==> field == Some(&self@[index as int]),
            index >= self@.len() ==> field is None,
    ;

    fn get_mut(&mut self, index: usize) -> (field: Option<&mut DataField<Self::EntryDataType>>)
        ensures
            index < old(self)@.len() ==> field is Some && *field->0 == old(self)@[index as int]
                && final(self)@ == old(self)@.update(index as int, *final(field->0)),
            index >= old(self)@.len() ==> field is None && final(self)@ == old(self)@,
    ;

    fn len(&self) -> (length: usize)
        ensures
            length == self@.len(),
    ;

    fn push(&mut self, data: DataField<Self::EntryDataType>)
        ensures
            final(self)@ == old(self)@.push(data),
    ;

    fn set_data_field(&mut self, index: usize, data_field: DataField<Self::EntryDataType>)
        requires
            index < old(self)@.len(),
        ensures
            final(self)@ == old(self)@.update(index as int, data_field),
    ;

    fn new() -> (empty: Self)
        ensures
            empty@ == Seq::<DataField<Self::EntryDataType>>::empty(),
    ;
}

/// Slots in a growable array.
pub struct StdVec<T> {
    data: Vec<DataField<T>>,
}

impl<T> StdVec<T> {
    /// The slots are part of the vector: what is defined by recursion over a
    /// vector of slots may descend into them.
    pub proof fn lemma_view_decreases(&self)
        ensures
            decreases_to!(*self => self@),
    {
        broadcast use vstd::std_specs::vec::axiom_vec_decreases_to_view;

    }
}

impl<T> DataVector for StdVec<T> {
    type EntryDataType = T;

    closed spec fn view(&self) -> Seq<DataField<T>> {
        self.data@
    }

    fn get(&self, index: usize) -> (field: Option<&DataField<T>>) {
        if index < self.data.len() {
            Some(&self.data[index])
        } else {
            None
        }
    }

    fn get_mut(&mut self, index: usize) -> (field: Option<&mut DataField<T>>) {
        if index < self.data.len() {
            Some(&mut self.data[index])
        } else {
            None
        }
    }

    fn len(&self) -> (length: usize) {
        self.data.len()
    }

    fn push(&mut self, data: DataField<T>) {
        self.data.push(data)
    }

    fn set_data_field(&mut self, index: usize, data_field: DataField<T>) {
        self.data[index] = data_field;
    }

    fn new() -> (empty: Self) {
        StdVec { data: Vec::new() }
    }
}


/// Walks the payload cells of all slots, in use or not.
pub struct DataFieldIterator<'a, D: DataVector> {
    current_index: usize,
    data: &'a D,
}

impl<'a, D: DataVector> DataFieldIterator<'a, D> {
    /// The slots that are walked.
    pub closed spec fn slots(&self) -> Seq<DataField<D::EntryDataType>> {
        self.data@
    }

    /// The index of the slot that is looked at next.
    pub closed spec fn position(&self) -> usize {
        self.current_index
    }

    pub fn new(data: &'a D) -> (iterator: Self)
        ensures
            iterator.slots() == data@,
            iterator.position() == 0,
    {
        DataFieldIterator { current_index: 0, data }
    }

    /// The payload cell of the next slot, until the slots run out.
    pub fn next(&mut self) -> (item: Option<&'a Option<D::EntryDataType>>)
        ensures
            final(self).slots() == old(self).slots(),
            old(self).position() < old(self).slots().len() ==> item == Some(
                &old(self).slots()[old(self).position() as int].data,
            ) && final(self).position() == old(self).position() + 1,
            old(self).position() >= old(self).slots().len() ==> item is None
                && final(self).position() == old(self).position(),
    {
        let length = self.data.len();
        if let Some(entry) = self.data.get(self.current_index) {
            self.current_index += 1;
            return Some(entry.get_data());
        }
        None
    }
}

/// Walks the payloads of the slots that hold one, in index order.
pub struct DataIterator<'a, D: DataVector> {
    current_index: usize,
    data: &'a D,
}

impl<'a, D: DataVector> DataIterator<'a, D> {
    pub closed spec fn slots(&self) -> Seq<DataField<D::EntryDataType>> {
        self.data@
    }

    pub closed spec fn position(&self) -> usize {
        self.current_index
    }

    pub fn new(data: &'a D) -> (iterator: Self)
        ensures
            iterator.slots() == data@,
            iterator.position() == 0,
    {
        DataIterator { current_index: 0, data }
    }

    fn find_next(&mut self) -> (item: Option<&'a D::EntryDataType>)
        ensures
            final(self).slots() == old(self).slots(),
            old(self).position() <= final(self).position(),
            match item {
                Some(entry) => old(self).position() < final(self).position() <= old(self).slots().len()
                    && old(self).slots()[final(self).position() - 1].data == Some(
                    *entry,
                ) && no_payload_between(
                    old(self).slots(),
                    old(self).position() as int,
                    final(self).position() - 1,
                ),
                None => final(self).position() >= old(self).slots().len() && no_payload_between(
                    old(self).slots(),
                    old(self).position() as int,
                    old(self).slots().len() as int,
                ),
            },
    {
        let length = self.data.len();
        let ghost start = self.current_index;
        while self.current_index < length
            invariant
                length == self.data@.len(),
                self.data == old(self).data,
                start == old(self).position(),
                start <= self.current_index,
                forall|j: int| start <= j < self.current_index ==> (#[trigger] self.data@[j]).data is None,
            decreases length - self.current_index,
        {
            if let Some(data_field) = self.data.get(self.current_index) {
                if let Some(data) = data_field.get_data() {
                    self.current_index += 1;
                    return Some(data);
                }
            }
            self.current_index += 1;
        }
        None
    }

    /// The payload of the next slot that holds one, until none is left.
    pub fn next(&mut self) -> (item: Option<&'a D::EntryDataType>)
        ensures
            final(self).slots() == old(self).slots(),
            old(self).position() <= final(self).position(),
            match item {
                Some(entry) => old(self).position() < final(self).position() <= old(self).slots().len()
                    && old(self).slots()[final(self).position() - 1].data == Some(
                    *entry,
                ) && no_payload_between(
                    old(self).slots(),
                    old(self).position() as int,
                    final(self).position() - 1,
                ),
                None => final(self).position() >= old(self).slots().len() && no_payload_between(
                    old(self).slots(),
                    old(self).position() as int,
                    old(self).slots().len() as int,
                ),
            },
    {
        self.find_next()
    }
}

/// No slot from `from` up to, not including, `to` holds a payload.
pub open spec fn no_payload_between<T>(slots: Seq<DataField<T>>, from: int, to: int) -> bool {
    forall|j: int| from <= j < to && 0 <= j < slots.len() ==> (#[trigger] slots[j]).data is None
}

/// Walks the handles of the slots that hold a payload, in index order.
pub struct HandleIterator<'a, H: Handle, D: DataVector> {
    current_index: usize,
    data: &'a D,
    _marker: PhantomData<H>,
}

impl<'a, H: Handle, D: DataVector> HandleIterator<'a, H, D> {
    pub closed spec fn slots(&self) -> Seq<DataField<D::EntryDataType>> {
        self.data@
    }

    pub closed spec fn position(&self) -> usize {
        self.current_index
    }

    pub fn new(data: &'a D) -> (iterator: Self)
        ensures
            iterator.slots() == data@,
            iterator.position() == 0,
    {
        HandleIterator { current_index: 0, data, _marker: PhantomData }
    }

    fn find_next(&mut self) -> (item: Option<H>)
        ensures
            final(self).slots() == old(self).slots(),
            old(self).position() <= final(self).position(),
            match item {
                Some(handle) => old(self).position() < final(self).position() <= old(self).slots().len()
                    && old(self).slots()[final(self).position() - 1].data is Some
                    && handle.spec_index() == final(self).position() - 1
                    && handle.spec_generation() == old(self).slots()[final(self).position()
                    - 1].generation && no_payload_between(
                    old(self).slots(),
                    old(self).position() as int,
                    final(self).position() - 1,
                ),
                None => final(self).position() >= old(self).slots().len() && no_payload_between(
                    old(self).slots(),
                    old(self).position() as int,
                    old(self).slots().len() as int,
                ),
            },
    {
        let length = self.data.len();
        let ghost start = self.current_index;
        while self.current_index < length
            invariant
                length == self.data@.len(),
                self.data == old(self).data,
                start == old(self).position(),
                start <= self.current_index,
                forall|j: int| start <= j < self.current_index ==> (#[trigger] self.data@[j]).data is None,
            decreases length - self.current_index,
        {
            if let Some(data_field) = self.data.get(self.current_index) {
                if let Some(_data) = data_field.get_data() {
                    self.current_index += 1;
                    return Some(H::new(self.current_index - 1, data_field.get_generation()));
                }
            }
            self.current_index += 1;
        }
        None
    }

    /// The handle of the next slot that holds a payload, until none is left.
    pub fn next(&mut self) -> (item: Option<H>)
        ensures
            final(self).slots() == old(self).slots(),
            old(self).position() <= final(self).position(),
            match item {
                Some(handle) => old(self).position() < final(self).position() <= old(self).slots().len()
                    && old(self).slots()[final(self).position() - 1].data is Some
                    && handle.spec_index() == final(self).position() - 1
                    && handle.spec_generation() == old(self).slots()[final(self).position()
                    - 1].generation && no_payload_between(
                    old(self).slots(),
                    old(self).position() as int,
                    final(self).position() - 1,
                ),
                None => final(self).position() >= old(self).slots().len() && no_payload_between(
                    old(self).slots(),
                    old(self).position() as int,
                    old(self).slots().len() as int,
                ),
            },
    {
        self.find_next()
    }
}

} // verus!
